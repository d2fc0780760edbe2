//! Character-level helpers for building Go source text.

use vstd::prelude::*;
use vstd::string::*;

verus! {

/// The character of a decimal digit.
pub open spec fn digit_char(d: nat) -> char {
    ((48 + d) as u32) as char
}

/// Decimal representation of a number, without leading zeros.
pub open spec fn dec(n: nat) -> Seq<char>
    decreases n,
{
    if n < 10 {
        seq![digit_char(n)]
    } else {
        dec(n / 10).push(digit_char(n % 10))
    }
}

/// Appends one character (`String::push`).
#[verifier::external_body]
pub(crate) fn push_char(s: &mut String, c: char)
    ensures
        final(s)@ == old(s)@.push(c),
{
    s.push(c);
}

fn digit(d: u64) -> (c: char)
    requires
        d < 10,
    ensures
        c == digit_char(d as nat),
{
    if d == 0 { '0' }
    else if d == 1 { '1' }
    else if d == 2 { '2' }
    else if d == 3 { '3' }
    else if d == 4 { '4' }
    else if d == 5 { '5' }
    else if d == 6 { '6' }
    else if d == 7 { '7' }
    else if d == 8 { '8' }
    else { '9' }
}

/// Appends the decimal representation of `n`.
pub fn push_dec(s: &mut String, n: u64)
    ensures
        final(s)@ == old(s)@ + dec(n as nat),
    decreases n,
{
    if n >= 10 {
        push_dec(s, n / 10);
    }
    push_char(s, digit(n % 10));
    proof {
        assert(old(s)@ + dec(n as nat) =~= final(s)@) by {
            if n >= 10 {
                assert(dec(n as nat) == dec((n / 10) as nat).push(digit_char((n % 10) as nat)));
            }
        }
    }
}

/// Appends a string slice.
pub fn push_str(s: &mut String, t: &str)
    ensures
        final(s)@ == old(s)@ + t@,
{
    s.append(t);
}

/// The decimal representation of `n` as a new string.
pub fn dec_string(n: u64) -> (r: String)
    ensures
        r@ == dec(n as nat),
{
    let mut s = String::new();
    push_dec(&mut s, n);
    assert(s@ =~= dec(n as nat));
    s
}

/// Copies a string.
pub fn copy_string(s: &String) -> (r: String)
    ensures
        r@ == s@,
{
    s.clone()
}

/// A new string holding a copy of `t`.
pub fn text_of(t: &str) -> (r: String)
    ensures
        r@ == t@,
{
    let mut r = String::new();
    push_str(&mut r, t);
    assert(r@ =~= t@);
    r
}

/// The characters of a string slice.
pub fn string_chars(s: &str) -> (r: Vec<char>)
    ensures
        r@ == s@,
{
    let n = s.unicode_len();
    let mut r: Vec<char> = Vec::new();
    let mut i: usize = 0;
    while i < n
        invariant
            i <= n,
            n == s@.len(),
            r@ == s@.subrange(0, i as int),
        decreases n - i,
    {
        r.push(s.get_char(i));
        i += 1;
        assert(r@ =~= s@.subrange(0, i as int));
    }
    assert(s@.subrange(0, n as int) =~= s@);
    r
}

/// The byte of each character (the low eight bits of its code), in order.
pub open spec fn char_bytes(s: Seq<char>) -> Seq<u8> {
    s.map_values(|c: char| c as u8)
}

/// The bytes of an ASCII text, one per character.
pub fn ascii_bytes(s: &str) -> (r: Vec<u8>)
    ensures
        r@ == char_bytes(s@),
{
    let cs = string_chars(s);
    let mut r: Vec<u8> = Vec::new();
    let mut i: usize = 0;
    while i < cs.len()
        invariant
            i <= cs@.len(),
            cs@ == s@,
            r@ == char_bytes(s@).subrange(0, i as int),
        decreases cs@.len() - i,
    {
        r.push(cs[i] as u8);
        i += 1;
        assert(r@ =~= char_bytes(s@).subrange(0, i as int));
    }
    assert(char_bytes(s@).subrange(0, i as int) =~= char_bytes(s@));
    r
}

/// Appends the characters `cs[a..b]`.
pub fn push_range(out: &mut String, cs: &Vec<char>, a: usize, b: usize)
    requires
        a <= b <= cs@.len(),
    ensures
        final(out)@ == old(out)@ + cs@.subrange(a as int, b as int),
{
    let mut i: usize = a;
    while i < b
        invariant
            a <= i <= b,
            b <= cs@.len(),
            out@ == old(out)@ + cs@.subrange(a as int, i as int),
        decreases b - i,
    {
        push_char(out, cs[i]);
        i += 1;
        assert(out@ =~= old(out)@ + cs@.subrange(a as int, i as int));
    }
}

// ---------------------------------------------------------------------------
// Substrings
// ---------------------------------------------------------------------------

/// `p` occurs in `s` starting at position `i`.
pub open spec fn occurs_at(s: Seq<char>, p: Seq<char>, i: int) -> bool {
    0 <= i && i + p.len() <= s.len() && s.subrange(i, i + p.len()) == p
}

/// `p` occurs somewhere in `s` (`str::contains` with a string pattern).
pub open spec fn has_sub(s: Seq<char>, p: Seq<char>) -> bool {
    exists|i: int| #[trigger] occurs_at(s, p, i)
}

fn occurs_at_exec(s: &Vec<char>, p: &Vec<char>, i: usize) -> (r: bool)
    requires
        i + p@.len() <= s@.len(),
    ensures
        r == occurs_at(s@, p@, i as int),
{
    let n = s.len();
    let mut k: usize = 0;
    while k < p.len()
        invariant
            k <= p@.len(),
            n == s@.len(),
            i + p@.len() <= n,
            forall|j: int| 0 <= j < k ==> s@[i + j] == p@[j],
        decreases p@.len() - k,
    {
        if s[i + k] != p[k] {
            assert(s@.subrange(i as int, i + p@.len())[k as int] != p@[k as int]);
            return false;
        }
        k += 1;
    }
    assert(s@.subrange(i as int, i + p@.len()) =~= p@);
    true
}

/// Whether `p` occurs in `s`.
pub fn contains_text(s: &str, p: &str) -> (r: bool)
    ensures
        r == has_sub(s@, p@),
{
    let sv = string_chars(s);
    let pv = string_chars(p);
    if pv.len() > sv.len() {
        assert forall|j: int| !occurs_at(s@, p@, j) by {}
        return false;
    }
    let last = sv.len() - pv.len();
    let mut i: usize = 0;
    while i <= last
        invariant
            sv@ == s@,
            pv@ == p@,
            last == sv@.len() - pv@.len(),
            i <= last + 1,
            forall|j: int| 0 <= j < i ==> !occurs_at(s@, p@, j),
        decreases sv@.len() - i,
    {
        if occurs_at_exec(&sv, &pv, i) {
            assert(occurs_at(s@, p@, i as int));
            return true;
        }
        if i == last {
            assert forall|j: int| !occurs_at(s@, p@, j) by {
                if 0 <= j && j > last {
                    assert(j + p@.len() > s@.len());
                }
            }
            return false;
        }
        i += 1;
    }
    assert forall|j: int| !occurs_at(s@, p@, j) by {
        if 0 <= j && j >= i {
            assert(j + p@.len() > s@.len());
        }
    }
    false
}

// ---------------------------------------------------------------------------
// Lines
// ---------------------------------------------------------------------------

/// The position of the first `'\n'` at or after `from`, or the length.
pub open spec fn next_nl(s: Seq<char>, from: int) -> int
    decreases s.len() - from,
{
    if from < 0 || from >= s.len() {
        s.len() as int
    } else if s[from] == '\n' {
        from
    } else {
        next_nl(s, from + 1)
    }
}

/// `next_nl` lies between `from` and the length, and marks a newline when
/// it is short of the length.
pub proof fn lemma_next_nl(s: Seq<char>, from: int)
    requires
        0 <= from <= s.len(),
    ensures
        from <= next_nl(s, from) <= s.len(),
        next_nl(s, from) < s.len() ==> s[next_nl(s, from)] == '\n',
        forall|j: int| from <= j < next_nl(s, from) ==> s[j] != '\n',
    decreases s.len() - from,
{
    if from < s.len() && s[from] != '\n' {
        lemma_next_nl(s, from + 1);
    }
}

/// A line without the carriage return that ends it, if any.
pub open spec fn strip_cr(l: Seq<char>) -> Seq<char> {
    if l.len() > 0 && l.last() == '\r' {
        l.drop_last()
    } else {
        l
    }
}

/// The lines of `s` from position `from` on, as `str::lines` splits them:
/// at each `'\n'`, dropping a `'\r'` just before it; a last line without
/// a newline is kept whole, and nothing follows a final newline.
pub open spec fn lines_from(s: Seq<char>, from: int) -> Seq<Seq<char>>
    decreases s.len() - from,
{
    if from < 0 || from >= s.len() {
        seq![]
    } else {
        let k = next_nl(s, from);
        proof {
            lemma_next_nl(s, from);
        }
        if k >= s.len() {
            seq![s.subrange(from, s.len() as int)]
        } else {
            seq![strip_cr(s.subrange(from, k))] + lines_from(s, k + 1)
        }
    }
}

/// The lines of a text (`str::lines`).
pub open spec fn text_lines(s: Seq<char>) -> Seq<Seq<char>> {
    lines_from(s, 0)
}

/// Each line behind a tab and followed by a newline.
pub open spec fn tab_lines(ls: Seq<Seq<char>>) -> Seq<char>
    decreases ls.len(),
{
    if ls.len() == 0 {
        seq![]
    } else {
        "\t"@ + ls[0] + "\n"@ + tab_lines(ls.drop_first())
    }
}

/// Appends each line of `cs[from..]`, behind a tab and followed by a newline.
pub fn push_tab_lines_from(out: &mut String, cs: &Vec<char>, from: usize)
    requires
        from <= cs@.len(),
    ensures
        final(out)@ == old(out)@ + tab_lines(lines_from(cs@, from as int)),
    decreases cs@.len() - from,
{
    if from >= cs.len() {
        assert(old(out)@ + tab_lines(lines_from(cs@, from as int)) =~= out@);
        return;
    }
    let mut k: usize = from;
    while k < cs.len() && cs[k] != '\n'
        invariant
            from <= k <= cs@.len(),
            next_nl(cs@, from as int) == next_nl(cs@, k as int),
        decreases cs@.len() - k,
    {
        k += 1;
    }
    let ghost ls = lines_from(cs@, from as int);
    proof {
        lemma_next_nl(cs@, from as int);
    }
    let end: usize = if k < cs.len() && k > from && cs[k - 1] == '\r' { k - 1 } else { k };
    let ghost line = if k < cs@.len() {
        strip_cr(cs@.subrange(from as int, k as int))
    } else {
        cs@.subrange(from as int, k as int)
    };
    proof {
        assert(cs@.subrange(from as int, end as int) =~= line);
        assert(ls[0] == line);
    }
    push_str(out, "\t");
    push_range(out, cs, from, end);
    push_str(out, "\n");
    if k < cs.len() {
        let ghost mid = out@;
        push_tab_lines_from(out, cs, k + 1);
        proof {
            assert(ls.drop_first() =~= lines_from(cs@, k + 1));
            assert(final(out)@ =~= old(out)@ + tab_lines(ls));
        }
    } else {
        proof {
            assert(ls.drop_first() =~= Seq::<Seq<char>>::empty());
            assert(final(out)@ =~= old(out)@ + tab_lines(ls));
        }
    }
}

} // verus!

verus! {

/// Decimal text of a 256-bit number given as little-endian bytes: calls
/// `num_bigint::BigUint::from_bytes_le` and renders the result with its
/// `Display` impl, which prints the number in base 10 without leading zeros.
#[verifier::external_body]
pub(crate) fn biguint_le_decimal(bytes: &[u8]) -> (r: String)
    ensures
        r@ == dec(crate::bytes::le_nat(bytes@)),
{
    num_bigint::BigUint::from_bytes_le(bytes).to_string()
}

/// Decimal text of a field constant's value (its limbs read as one 256-bit number).
pub fn scalar_decimal(l: [u64; 4]) -> (r: String)
    ensures
        r@ == dec(crate::scalar::limbs_val(l)),
{
    if l[1] == 0 && l[2] == 0 && l[3] == 0 {
        dec_string(l[0])
    } else {
        let bytes = crate::bytes::limbs_le_bytes(l);
        biguint_le_decimal(bytes.as_slice())
    }
}

} // verus!
