use vstd::prelude::*;
use vstd::string::{StrSliceExecFns, StringExecFns};

verus! {

broadcast use vstd::string::group_string_axioms;

/// The decimal digit character of `d`, for `d < 10`.
pub open spec fn digit_char(d: nat) -> char {
    if d == 0 { '0' }
    else if d == 1 { '1' }
    else if d == 2 { '2' }
    else if d == 3 { '3' }
    else if d == 4 { '4' }
    else if d == 5 { '5' }
    else if d == 6 { '6' }
    else if d == 7 { '7' }
    else if d == 8 { '8' }
    else { '9' }
}

/// The decimal digits of a natural number, without leading zeros.
pub open spec fn digits(n: nat) -> Seq<char>
    decreases n,
{
    if n < 10 {
        seq![digit_char(n)]
    } else {
        digits(n / 10).push(digit_char(n % 10))
    }
}

/// The decimal text of an integer, with a leading `-` when negative.
pub open spec fn decimal(n: int) -> Seq<char> {
    if n < 0 {
        seq!['-'] + digits((-n) as nat)
    } else {
        digits(n as nat)
    }
}

/// Whether `t` occurs in `s` as a contiguous run of characters.
pub open spec fn contains(s: Seq<char>, t: Seq<char>) -> bool {
    exists|i: int| 0 <= i && i + t.len() <= s.len() && #[trigger] s.subrange(i, i + t.len()) == t
}

/// `s` with every `_` taken out.
pub open spec fn strip_sep(s: Seq<char>) -> Seq<char>
    decreases s.len(),
{
    if s.len() == 0 {
        s
    } else if s.last() == '_' {
        strip_sep(s.drop_last())
    } else {
        strip_sep(s.drop_last()).push(s.last())
    }
}

/// `s` with every leading copy of `p` taken off.
pub open spec fn trim_prefix(s: Seq<char>, p: Seq<char>) -> Seq<char>
    decreases s.len(),
{
    if p.len() > 0 && p.len() <= s.len() && s.subrange(0, p.len() as int) == p {
        trim_prefix(s.subrange(p.len() as int, s.len() as int), p)
    } else {
        s
    }
}

fn digit_text(d: u64) -> (r: &'static str)
    requires
        d < 10,
    ensures
        r@ == seq![digit_char(d as nat)],
{
    if d == 0 {
        proof { reveal_strlit("0"); }
        "0"
    } else if d == 1 {
        proof { reveal_strlit("1"); }
        "1"
    } else if d == 2 {
        proof { reveal_strlit("2"); }
        "2"
    } else if d == 3 {
        proof { reveal_strlit("3"); }
        "3"
    } else if d == 4 {
        proof { reveal_strlit("4"); }
        "4"
    } else if d == 5 {
        proof { reveal_strlit("5"); }
        "5"
    } else if d == 6 {
        proof { reveal_strlit("6"); }
        "6"
    } else if d == 7 {
        proof { reveal_strlit("7"); }
        "7"
    } else if d == 8 {
        proof { reveal_strlit("8"); }
        "8"
    } else {
        proof { reveal_strlit("9"); }
        "9"
    }
}

fn push_digits(out: &mut String, n: u64)
    ensures
        final(out)@ == old(out)@ + digits(n as nat),
    decreases n,
{
    if n >= 10 {
        push_digits(out, n / 10);
    }
    out.append(digit_text(n % 10));
    proof {
        if n >= 10 {
            assert(old(out)@ + digits(n as nat) =~= old(out)@ + digits((n / 10) as nat) + seq![
                digit_char((n % 10) as nat),
            ]);
        } else {
            assert(digits(n as nat) == seq![digit_char(n as nat)]);
        }
    }
}

/// Appends the decimal text of `n` to `out`.
pub fn push_decimal(out: &mut String, n: i64)
    ensures
        final(out)@ == old(out)@ + decimal(n as int),
{
    if n < 0 {
        proof { reveal_strlit("-"); }
        out.append("-");
        let m: u64 = (0i128 - n as i128) as u64;
        push_digits(out, m);
        proof {
            assert(old(out)@ + decimal(n as int) =~= old(out)@ + seq!['-'] + digits(m as nat));
        }
    } else {
        push_digits(out, n as u64);
    }
}

/// The characters of `s`, one by one.
pub fn chars_of(s: &str) -> (r: Vec<char>)
    ensures
        r@ == s@,
{
    let n = s.unicode_len();
    let mut r: Vec<char> = Vec::new();
    let mut i: usize = 0;
    while i < n
        invariant
            n == s@.len(),
            i <= n,
            r@ == s@.subrange(0, i as int),
        decreases n - i,
    {
        r.push(s.get_char(i));
        i += 1;
        proof {
            assert(r@ =~= s@.subrange(0, i as int));
        }
    }
    proof {
        assert(r@ =~= s@);
    }
    r
}

/// Whether `t` starts at index `i` of `s`.
fn occurs_at(s: &Vec<char>, t: &Vec<char>, i: usize) -> (r: bool)
    requires
        i + t@.len() <= s@.len(),
    ensures
        r == (s@.subrange(i as int, i + t@.len()) == t@),
{
    let n = s.len();
    let mut j: usize = 0;
    while j < t.len()
        invariant
            n == s@.len(),
            i + t@.len() <= s@.len(),
            j <= t@.len(),
            s@.subrange(i as int, i + j) == t@.subrange(0, j as int),
        decreases t@.len() - j,
    {
        if s[i + j] != t[j] {
            proof {
                assert(s@.subrange(i as int, i + t@.len())[j as int] != t@[j as int]);
            }
            return false;
        }
        j += 1;
        proof {
            assert(s@.subrange(i as int, i + j) =~= t@.subrange(0, j as int));
        }
    }
    proof {
        assert(t@.subrange(0, j as int) =~= t@);
    }
    true
}

/// Whether `t` occurs in `s`.
pub fn contains_chars(s: &Vec<char>, t: &Vec<char>) -> (r: bool)
    ensures
        r == contains(s@, t@),
{
    if t.len() > s.len() {
        return false;
    }
    let last = s.len() - t.len();
    let mut i: usize = 0;
    while i <= last
        invariant
            last == s@.len() - t@.len(),
            i <= last + 1,
            forall|k: int| 0 <= k < i ==> #[trigger] s@.subrange(k, k + t@.len()) != t@,
        decreases last + 1 - i,
    {
        if occurs_at(s, t, i) {
            return true;
        }
        if i == last {
            return false;
        }
        i += 1;
    }
    false
}

/// `s` with every `_` taken out.
pub fn strip_separators(s: &Vec<char>) -> (r: Vec<char>)
    ensures
        r@ == strip_sep(s@),
{
    let mut r: Vec<char> = Vec::new();
    let mut i: usize = 0;
    while i < s.len()
        invariant
            i <= s@.len(),
            r@ == strip_sep(s@.subrange(0, i as int)),
        decreases s@.len() - i,
    {
        proof {
            assert(s@.subrange(0, i + 1).drop_last() =~= s@.subrange(0, i as int));
        }
        if s[i] != '_' {
            r.push(s[i]);
        }
        i += 1;
    }
    proof {
        assert(s@.subrange(0, i as int) =~= s@);
    }
    r
}

/// The namespace that block identifiers may carry.
pub open spec fn namespace() -> Seq<char> {
    seq!['m', 'i', 'n', 'e', 'c', 'r', 'a', 'f', 't', ':']
}

/// `s` with every leading copy of the namespace taken off.
pub fn trim_namespace(s: &str) -> (r: &str)
    ensures
        r@ == trim_prefix(s@, namespace()),
{
    let cs = chars_of(s);
    let p: Vec<char> = vec!['m', 'i', 'n', 'e', 'c', 'r', 'a', 'f', 't', ':'];
    proof {
        assert(p@ =~= namespace());
    }
    let mut k: usize = 0;
    proof {
        assert(s@.subrange(0, s@.len() as int) =~= s@);
    }
    while cs.len() - k >= 10 && occurs_at(&cs, &p, k)
        invariant
            cs@ == s@,
            p@ == namespace(),
            k <= cs@.len(),
            trim_prefix(s@, namespace()) == trim_prefix(s@.subrange(k as int, s@.len() as int), namespace()),
        decreases cs@.len() - k,
    {
        proof {
            let rest = s@.subrange(k as int, s@.len() as int);
            assert(rest.subrange(0, 10) =~= s@.subrange(k as int, k + 10));
            assert(rest.subrange(10, rest.len() as int) =~= s@.subrange(k + 10, s@.len() as int));
        }
        k += 10;
    }
    proof {
        let rest = s@.subrange(k as int, s@.len() as int);
        if 10 <= rest.len() {
            assert(rest.subrange(0, 10) =~= s@.subrange(k as int, k + 10));
        }
    }
    s.substring_char(k, cs.len())
}

} // verus!
