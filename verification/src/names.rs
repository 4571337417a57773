//! File-name arithmetic for collision resolution: splitting a name into stem
//! and extension, rendering counters in decimal, and building the numbered
//! candidate names `stem_1.ext`, `stem_2.ext`, ... used when a destination
//! name is already taken.

use vstd::prelude::*;
use vstd::string::StrSliceExecFns;
use vstd::string::StringExecFns;

verus! {

/// The decimal digit character for a value below ten.
pub open spec fn digit_char(d: nat) -> char {
    if d == 0 {
        '0'
    } else if d == 1 {
        '1'
    } else if d == 2 {
        '2'
    } else if d == 3 {
        '3'
    } else if d == 4 {
        '4'
    } else if d == 5 {
        '5'
    } else if d == 6 {
        '6'
    } else if d == 7 {
        '7'
    } else if d == 8 {
        '8'
    } else {
        '9'
    }
}

/// Decimal rendering of a natural number, most significant digit first,
/// without a sign and without leading zeros.
pub open spec fn decimal(n: nat) -> Seq<char>
    decreases n,
{
    if n < 10 {
        seq![digit_char(n)]
    } else {
        decimal(n / 10).push(digit_char(n % 10))
    }
}

/// A decimal rendering is never empty.
pub proof fn lemma_decimal_len(n: nat)
    ensures
        decimal(n).len() >= 1,
    decreases n,
{
    if n >= 10 {
        lemma_decimal_len(n / 10);
    }
}

/// Two distinct counters render to distinct decimal strings.
pub proof fn lemma_decimal_injective(a: nat, b: nat)
    requires
        decimal(a) == decimal(b),
    ensures
        a == b,
    decreases a + b,
{
    if a < 10 && b < 10 {
        assert(decimal(a) == seq![digit_char(a)]);
        assert(decimal(b) == seq![digit_char(b)]);
        assert(seq![digit_char(a)][0] == digit_char(a));
        assert(seq![digit_char(b)][0] == digit_char(b));
        assert(digit_char(a) == digit_char(b));
        assert(a == b);
    } else if a < 10 {
        lemma_decimal_len(b / 10);
        assert(decimal(a).len() == 1);
        assert(decimal(b).len() == decimal(b / 10).len() + 1);
    } else if b < 10 {
        lemma_decimal_len(a / 10);
        assert(decimal(b).len() == 1);
        assert(decimal(a).len() == decimal(a / 10).len() + 1);
    } else {
        let da = digit_char(a % 10);
        let db = digit_char(b % 10);
        let pa = decimal(a / 10);
        let pb = decimal(b / 10);
        assert(decimal(a) == pa.push(da));
        assert(decimal(b) == pb.push(db));
        assert(pa.len() == pb.len());
        assert(da == db) by {
            assert(pa.push(da)[pa.len() as int] == da);
            assert(pb.push(db)[pb.len() as int] == db);
        }
        assert(a % 10 == b % 10);
        assert(pa =~= pb) by {
            assert forall|i: int| 0 <= i < pa.len() implies pa[i] == pb[i] by {
                assert(pa.push(da)[i] == pa[i]);
                assert(pb.push(db)[i] == pb[i]);
            }
        }
        lemma_decimal_injective(a / 10, b / 10);
        assert(a / 10 == b / 10);
        vstd::arithmetic::div_mod::lemma_fundamental_div_mod(a as int, 10);
        vstd::arithmetic::div_mod::lemma_fundamental_div_mod(b as int, 10);
        assert(a == b);
    }
}

/// The string literal for a single decimal digit.
fn digit_str(d: u128) -> (r: &'static str)
    requires
        d < 10,
    ensures
        r@ == seq![digit_char(d as nat)],
{
    proof {
        reveal_strlit("0");
        reveal_strlit("1");
        reveal_strlit("2");
        reveal_strlit("3");
        reveal_strlit("4");
        reveal_strlit("5");
        reveal_strlit("6");
        reveal_strlit("7");
        reveal_strlit("8");
        reveal_strlit("9");
    }
    let r: &'static str = if d == 0 {
        "0"
    } else if d == 1 {
        "1"
    } else if d == 2 {
        "2"
    } else if d == 3 {
        "3"
    } else if d == 4 {
        "4"
    } else if d == 5 {
        "5"
    } else if d == 6 {
        "6"
    } else if d == 7 {
        "7"
    } else if d == 8 {
        "8"
    } else {
        "9"
    };
    proof {
        assert(r@ =~= seq![digit_char(d as nat)]);
    }
    r
}

/// Renders a counter in decimal, exactly as the `decimal` spec describes it.
pub fn decimal_string(n: u128) -> (r: String)
    ensures
        r@ == decimal(n as nat),
    decreases n,
{
    if n < 10 {
        String::from_str(digit_str(n))
    } else {
        let mut s = decimal_string(n / 10);
        s.append(digit_str(n % 10));
        proof {
            assert(decimal((n as nat) / 10) + seq![digit_char((n as nat) % 10)] =~= decimal(
                (n as nat) / 10,
            ).push(digit_char((n as nat) % 10)));
        }
        s
    }
}

/// Index of the dot separating stem from extension, scanning downward from
/// position `i`; 0 when no such dot lies in `1..=i`. A dot at position 0
/// (a leading dot, as in a hidden file) does not start an extension.
pub open spec fn last_dot_from(name: Seq<char>, i: int) -> int
    decreases i,
{
    if i <= 0 {
        0
    } else if name[i] == '.' {
        i
    } else {
        last_dot_from(name, i - 1)
    }
}

/// Index of the final extension dot of `name`; 0 when the name has none.
pub open spec fn last_dot(name: Seq<char>) -> int {
    last_dot_from(name, name.len() - 1)
}

/// The name without its final extension; the whole name when it has none.
pub open spec fn stem_of(name: Seq<char>) -> Seq<char> {
    if last_dot(name) > 0 {
        name.take(last_dot(name))
    } else {
        name
    }
}

/// The final extension of the name, without its dot, when there is one.
pub open spec fn ext_of(name: Seq<char>) -> Option<Seq<char>> {
    if last_dot(name) > 0 {
        Some(name.skip(last_dot(name) + 1))
    } else {
        None
    }
}

proof fn lemma_last_dot_from_at(name: Seq<char>, i: int, d: int)
    requires
        1 <= d <= i < name.len(),
        name[d] == '.',
        forall|j: int| d < j <= i ==> name[j] != '.',
    ensures
        last_dot_from(name, i) == d,
    decreases i,
{
    if i > d {
        lemma_last_dot_from_at(name, i - 1, d);
    }
}

proof fn lemma_last_dot_from_none(name: Seq<char>, i: int)
    requires
        i < name.len(),
        forall|j: int| 1 <= j <= i ==> name[j] != '.',
    ensures
        last_dot_from(name, i) == 0,
    decreases i,
{
    if i > 0 {
        lemma_last_dot_from_none(name, i - 1);
    }
}

/// Splits a file name into its stem and its optional final extension,
/// following the usual convention that a leading dot does not begin an
/// extension.
pub fn split_name(name: &str) -> (r: (String, Option<String>))
    ensures
        r.0@ == stem_of(name@),
        r.1.deep_view() == ext_of(name@),
{
    let n = name.unicode_len();
    let mut i: usize = n;
    let mut dot: usize = 0;
    while i > 1 && dot == 0
        invariant
            i <= n,
            n == name@.len(),
            dot == 0 ==> forall|j: int| i <= j < n ==> name@[j] != '.',
            dot > 0 ==> 1 <= dot < n && name@[dot as int] == '.' && forall|j: int|
                dot < j < n ==> name@[j] != '.',
        decreases i,
    {
        i = i - 1;
        if name.get_char(i) == '.' {
            dot = i;
        }
    }
    if dot > 0 {
        proof {
            lemma_last_dot_from_at(name@, n as int - 1, dot as int);
        }
        let stem = name.substring_char(0, dot).to_owned();
        let ext = name.substring_char(dot + 1, n).to_owned();
        (stem, Some(ext))
    } else {
        proof {
            if n >= 1 {
                lemma_last_dot_from_none(name@, n as int - 1);
            }
        }
        (name.to_owned(), None)
    }
}

/// The collision candidate built from a stem, an optional extension, and a
/// counter: `stem_counter` with the extension, dot included, put back at the
/// end when there is one.
pub open spec fn candidate_parts(stem: Seq<char>, ext: Option<Seq<char>>, counter: nat) -> Seq<
    char,
> {
    let base = stem + seq!['_'] + decimal(counter);
    match ext {
        Some(e) => base + seq!['.'] + e,
        None => base,
    }
}

/// The numbered candidate name derived from `name` for a given counter.
pub open spec fn candidate(name: Seq<char>, counter: nat) -> Seq<char> {
    candidate_parts(stem_of(name), ext_of(name), counter)
}

/// For a fixed stem and extension, distinct counters give distinct candidate
/// names: the numbered names never run into each other.
pub proof fn lemma_candidate_injective(stem: Seq<char>, ext: Option<Seq<char>>, c1: nat, c2: nat)
    requires
        candidate_parts(stem, ext, c1) == candidate_parts(stem, ext, c2),
    ensures
        c1 == c2,
{
    let d1 = decimal(c1);
    let d2 = decimal(c2);
    let base1 = stem + seq!['_'] + d1;
    let base2 = stem + seq!['_'] + d2;
    let lo = stem.len() + 1;
    assert(candidate_parts(stem, ext, c1).len() == candidate_parts(stem, ext, c2).len());
    assert(base1.len() == stem.len() + 1 + d1.len());
    assert(base2.len() == stem.len() + 1 + d2.len());
    match ext {
        Some(e) => {
            assert(candidate_parts(stem, ext, c1) == base1 + seq!['.'] + e);
            assert(candidate_parts(stem, ext, c2) == base2 + seq!['.'] + e);
            assert((base1 + seq!['.'] + e).len() == base1.len() + 1 + e.len());
            assert((base2 + seq!['.'] + e).len() == base2.len() + 1 + e.len());
        },
        None => {
            assert(candidate_parts(stem, ext, c1) == base1);
            assert(candidate_parts(stem, ext, c2) == base2);
        },
    }
    assert(d1.len() == d2.len());
    assert(d1 =~= d2) by {
        assert forall|i: int| 0 <= i < d1.len() implies d1[i] == d2[i] by {
            assert(base1[lo + i] == d1[i]);
            assert(base2[lo + i] == d2[i]);
            match ext {
                Some(e) => {
                    assert((base1 + seq!['.'] + e)[lo + i] == base1[lo + i]);
                    assert((base2 + seq!['.'] + e)[lo + i] == base2[lo + i]);
                },
                None => {},
            }
        }
    }
    lemma_decimal_injective(c1, c2);
}

/// Builds the numbered candidate name for a stem, an optional extension and a
/// counter, exactly as the `candidate_parts` spec describes it.
pub fn candidate_name(stem: &str, ext: &Option<String>, counter: u128) -> (r: String)
    ensures
        r@ == candidate_parts(stem@, ext.deep_view(), counter as nat),
{
    proof {
        reveal_strlit("_");
        reveal_strlit(".");
        assert("_"@ =~= seq!['_']);
        assert("."@ =~= seq!['.']);
    }
    let mut s = stem.to_owned();
    s.append("_");
    let d = decimal_string(counter);
    s.append(d.as_str());
    match ext {
        Some(e) => {
            s.append(".");
            s.append(e.as_str());
        },
        None => {},
    }
    s
}

/// Builds the numbered candidate for a whole file name: the pure
/// `(existing name, counter) -> candidate name` function of the collision
/// policy.
pub fn collision_candidate(name: &str, counter: u128) -> (r: String)
    ensures
        r@ == candidate(name@, counter as nat),
{
    let (stem, ext) = split_name(name);
    candidate_name(stem.as_str(), &ext, counter)
}

} // verus!
