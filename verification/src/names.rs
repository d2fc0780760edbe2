//! Go identifiers from arbitrary names.

use vstd::prelude::*;
use crate::text::push_char;

verus! {

/// Whether a character is alphanumeric in Unicode's sense (`char::is_alphanumeric`).
pub uninterp spec fn is_alnum(c: char) -> bool;

/// The uppercase mapping of a character in Unicode's sense (`char::to_uppercase`).
pub uninterp spec fn upper(c: char) -> Seq<char>;

/// An ASCII letter or digit.
pub open spec fn is_ascii_alnum(c: char) -> bool {
    ('0' <= c <= '9') || ('a' <= c <= 'z') || ('A' <= c <= 'Z')
}

/// ASCII uppercase of a character (other characters unchanged).
pub open spec fn ascii_upper(c: char) -> char {
    if 'a' <= c <= 'z' {
        ((c as u32) - 32) as char
    } else {
        c
    }
}

/// Calls `char::is_alphanumeric`, named by `is_alnum`. For an ASCII character
/// the Unicode Alphabetic and Numeric properties hold exactly of the ASCII
/// letters and digits (what `char::is_ascii_alphanumeric` tests), so the
/// result is stated there; for other characters only the name is stated.
#[verifier::external_body]
fn char_is_alphanumeric(c: char) -> (r: bool)
    ensures
        r == is_alnum(c),
        (c as u32) < 128 ==> r == is_ascii_alnum(c),
{
    c.is_alphanumeric()
}

/// Calls `char::to_uppercase` and collects the characters it yields, named by
/// `upper`. For an ASCII character the Unicode uppercase mapping is the single
/// character `char::to_ascii_uppercase` gives, which is stated; for other
/// characters only the name is stated.
#[verifier::external_body]
fn char_to_uppercase(c: char) -> (r: Vec<char>)
    ensures
        r@ == upper(c),
        (c as u32) < 128 ==> r@ == seq![ascii_upper(c)],
{
    c.to_uppercase().collect()
}

/// A character that becomes a separator: anything not alphanumeric.
pub open spec fn is_sep(c: char) -> bool {
    !is_alnum(c)
}

/// The pieces between separators (as `str::split` gives them after every
/// non-alphanumeric character has been replaced by `_`).
pub open spec fn pieces(s: Seq<char>) -> Seq<Seq<char>>
    decreases s.len(),
{
    if s.len() == 0 {
        seq![seq![]]
    } else {
        let t = pieces(s.drop_last());
        if is_sep(s.last()) {
            t.push(seq![])
        } else {
            t.update(t.len() - 1, t.last().push(s.last()))
        }
    }
}

/// The non-empty pieces, in order.
pub open spec fn nonempty(ps: Seq<Seq<char>>) -> Seq<Seq<char>>
    decreases ps.len(),
{
    if ps.len() == 0 {
        seq![]
    } else if ps.last().len() > 0 {
        nonempty(ps.drop_last()).push(ps.last())
    } else {
        nonempty(ps.drop_last())
    }
}

/// A word with its first character uppercased.
pub open spec fn capitalize(w: Seq<char>) -> Seq<char> {
    upper(w[0]) + w.drop_first()
}

/// The capitalized words joined by `_`.
pub open spec fn join_caps(ws: Seq<Seq<char>>) -> Seq<char>
    decreases ws.len(),
{
    if ws.len() == 0 {
        seq![]
    } else if ws.len() == 1 {
        capitalize(ws[0])
    } else {
        join_caps(ws.drop_last()) + seq!['_'] + capitalize(ws.last())
    }
}

/// The Go identifier for a name: every non-alphanumeric character becomes a
/// separator, empty pieces are dropped, each piece gets its first character
/// uppercased (the rest is kept), and the pieces are joined by `_`.
pub open spec fn sanitize_spec(s: Seq<char>) -> Seq<char> {
    join_caps(nonempty(pieces(s)))
}

/// Every character is ASCII.
pub open spec fn all_ascii(s: Seq<char>) -> bool {
    forall|i: int| 0 <= i < s.len() ==> (#[trigger] s[i] as u32) < 128
}

/// `pieces` for ASCII text: the separators are the non-letters and non-digits.
pub open spec fn ascii_pieces(s: Seq<char>) -> Seq<Seq<char>>
    decreases s.len(),
{
    if s.len() == 0 {
        seq![seq![]]
    } else {
        let t = ascii_pieces(s.drop_last());
        if !is_ascii_alnum(s.last()) {
            t.push(seq![])
        } else {
            t.update(t.len() - 1, t.last().push(s.last()))
        }
    }
}

/// A word with its first character uppercased in ASCII.
pub open spec fn ascii_capitalize(w: Seq<char>) -> Seq<char> {
    seq![ascii_upper(w[0])] + w.drop_first()
}

/// The ASCII-capitalized words joined by `_`.
pub open spec fn ascii_join_caps(ws: Seq<Seq<char>>) -> Seq<char>
    decreases ws.len(),
{
    if ws.len() == 0 {
        seq![]
    } else if ws.len() == 1 {
        ascii_capitalize(ws[0])
    } else {
        ascii_join_caps(ws.drop_last()) + seq!['_'] + ascii_capitalize(ws.last())
    }
}

/// `sanitize_spec` of an ASCII name: letters and digits are kept, every
/// other character separates pieces, empty pieces are dropped, each piece's
/// first letter is uppercased (`a`-`z` to `A`-`Z`), and the pieces are joined
/// by `_`.
pub open spec fn sanitize_ascii(s: Seq<char>) -> Seq<char> {
    ascii_join_caps(nonempty(ascii_pieces(s)))
}

/// Appends `_` (unless nothing was emitted yet) and the capitalized piece, if
/// the piece is non-empty.
fn finish_piece(out: &mut String, cur: &Vec<char>, count: &mut usize, Ghost(done): Ghost<Seq<Seq<char>>>,
    Ghost(ascii): Ghost<bool>)
    requires
        old(out)@ == join_caps(nonempty(done)),
        ascii ==> old(out)@ == ascii_join_caps(nonempty(done)) && all_ascii(cur@),
        *old(count) == nonempty(done).len(),
        *old(count) < usize::MAX,
    ensures
        final(out)@ == join_caps(nonempty(done.push(cur@))),
        ascii ==> final(out)@ == ascii_join_caps(nonempty(done.push(cur@))),
        *final(count) == nonempty(done.push(cur@)).len(),
        *final(count) == *old(count) + (if cur@.len() > 0 { 1usize } else { 0usize }),
{
    assert(done.push(cur@).drop_last() =~= done);
    if cur.len() > 0 {
        if *count > 0 {
            push_char(out, '_');
        }
        let up = char_to_uppercase(cur[0]);
        let mut k: usize = 0;
        let ghost base = out@;
        while k < up.len()
            invariant
                k <= up@.len(),
                out@ == base + up@.subrange(0, k as int),
            decreases up@.len() - k,
        {
            push_char(out, up[k]);
            k += 1;
            assert(out@ =~= base + up@.subrange(0, k as int));
        }
        let mut j: usize = 1;
        while j < cur.len()
            invariant
                1 <= j <= cur@.len(),
                out@ == base + up@ + cur@.subrange(1, j as int),
            decreases cur@.len() - j,
        {
            push_char(out, cur[j]);
            j += 1;
            assert(out@ =~= base + up@ + cur@.subrange(1, j as int));
        }
        *count = *count + 1;
        proof {
            assert(cur@.subrange(1, cur@.len() as int) =~= cur@.drop_first());
            assert(up@.subrange(0, up@.len() as int) =~= up@);
            let ws = nonempty(done.push(cur@));
            assert(ws == nonempty(done).push(cur@));
            assert(ws.drop_last() =~= nonempty(done));
            if nonempty(done).len() == 0 {
                assert(out@ =~= join_caps(ws));
            } else {
                assert(out@ =~= join_caps(ws));
            }
            if ascii {
                assert((cur@[0] as u32) < 128);
                assert(up@ == seq![ascii_upper(cur@[0])]);
                assert(out@ =~= ascii_join_caps(ws));
            }
        }
    }
}

/// Sanitizes a name for use as a Go identifier (PascalCase pieces joined by
/// underscores), as `sanitize_spec` describes:
/// `"foo_bar"` becomes `"Foo_Bar"`, `"stage1.sumcheck[0]"` becomes `"Stage1_Sumcheck_0"`.
///
/// For an ASCII name the result is `sanitize_ascii`: `"stage1_sumcheck_r0"`
/// becomes `"Stage1_Sumcheck_R0"`, `"XMLParser"` stays `"XMLParser"`.
pub fn sanitize_go_name(name: &str) -> (r: String)
    ensures
        r@ == sanitize_spec(name@),
        all_ascii(name@) ==> r@ == sanitize_ascii(name@),
{
    let n = name.unicode_len();
    let mut out = String::new();
    let mut cur: Vec<char> = Vec::new();
    let mut count: usize = 0;
    let ghost mut done: Seq<Seq<char>> = seq![];
    let mut i: usize = 0;
    let ghost ascii = all_ascii(name@);
    proof {
        assert(name@.subrange(0, 0) =~= Seq::<char>::empty());
        assert(out@ =~= join_caps(nonempty(done)));
        assert(out@ =~= ascii_join_caps(nonempty(done)));
    }
    while i < n
        invariant
            n == name@.len(),
            i <= n,
            pieces(name@.subrange(0, i as int)) == done.push(cur@),
            out@ == join_caps(nonempty(done)),
            count == nonempty(done).len(),
            2 * count + cur@.len() <= i,
            ascii == all_ascii(name@),
            ascii ==> ascii_pieces(name@.subrange(0, i as int)) == done.push(cur@),
            ascii ==> out@ == ascii_join_caps(nonempty(done)),
            ascii ==> all_ascii(cur@),
        decreases n - i,
    {
        let c = name.get_char(i);
        let ghost pre = name@.subrange(0, i as int);
        proof {
            assert(name@.subrange(0, i + 1).drop_last() =~= pre);
            assert(name@.subrange(0, i + 1).last() == c);
        }
        proof {
            if ascii {
                assert((name@[i as int] as u32) < 128);
            }
        }
        if char_is_alphanumeric(c) {
            cur.push(c);
            proof {
                assert(pieces(name@.subrange(0, i + 1)) =~= done.push(cur@));
                if ascii {
                    assert(ascii_pieces(name@.subrange(0, i + 1)) =~= done.push(cur@));
                    assert(all_ascii(cur@));
                }
            }
        } else {
            finish_piece(&mut out, &cur, &mut count, Ghost(done), Ghost(ascii));
            proof {
                done = done.push(cur@);
                assert(pieces(name@.subrange(0, i + 1)) =~= done.push(seq![]));
                if ascii {
                    assert(ascii_pieces(name@.subrange(0, i + 1)) =~= done.push(seq![]));
                }
            }
            cur = Vec::new();
            assert(cur@ =~= Seq::<char>::empty());
        }
        i += 1;
    }
    finish_piece(&mut out, &cur, &mut count, Ghost(done), Ghost(ascii));
    proof {
        assert(name@.subrange(0, n as int) =~= name@);
    }
    out
}


/// Every character is an ASCII letter or digit.
pub open spec fn all_alnum(w: Seq<char>) -> bool {
    forall|i: int| 0 <= i < w.len() ==> is_ascii_alnum(#[trigger] w[i])
}

/// Words that are non-empty and made of ASCII letters and digits.
pub open spec fn alnum_words(ws: Seq<Seq<char>>) -> bool {
    forall|k: int| 0 <= k < ws.len() ==> (#[trigger] ws[k]).len() > 0 && all_alnum(ws[k])
}

/// The words, each ASCII-capitalized.
pub open spec fn caps(ws: Seq<Seq<char>>) -> Seq<Seq<char>> {
    ws.map_values(|w: Seq<char>| ascii_capitalize(w))
}

proof fn lemma_upper_char(c: char)
    ensures
        is_ascii_alnum(c) ==> is_ascii_alnum(ascii_upper(c)),
        ascii_upper(ascii_upper(c)) == ascii_upper(c),
        ascii_upper(c) != '_' || c == '_',
{
    if 'a' <= c <= 'z' {
        let u = ascii_upper(c);
        assert(u == ((c as u32) - 32) as char);
        assert('A' <= u <= 'Z');
    }
}

proof fn lemma_capitalize_alnum(w: Seq<char>)
    requires
        w.len() > 0,
        all_alnum(w),
    ensures
        ascii_capitalize(w).len() == w.len(),
        all_alnum(ascii_capitalize(w)),
        ascii_capitalize(ascii_capitalize(w)) == ascii_capitalize(w),
{
    lemma_upper_char(w[0]);
    let cw = ascii_capitalize(w);
    assert forall|i: int| 0 <= i < cw.len() implies is_ascii_alnum(#[trigger] cw[i]) by {
        if i > 0 {
            assert(cw[i] == w[i]);
        }
    }
    assert(cw[0] == ascii_upper(w[0]));
    assert(cw.drop_first() =~= w.drop_first());
    assert(ascii_capitalize(cw) =~= cw);
}

/// Appending letters and digits extends the last piece.
proof fn lemma_pieces_extend(x: Seq<char>, b: Seq<char>)
    requires
        all_alnum(b),
    ensures
        ascii_pieces(x + b) == ascii_pieces(x).update(ascii_pieces(x).len() - 1, ascii_pieces(x).last() + b),
        ascii_pieces(x).len() > 0,
    decreases b.len(),
{
    lemma_pieces_nonempty_list(x);
    if b.len() == 0 {
        assert(x + b =~= x);
        assert(ascii_pieces(x).last() + b =~= ascii_pieces(x).last());
        assert(ascii_pieces(x).update(ascii_pieces(x).len() - 1, ascii_pieces(x).last()) =~= ascii_pieces(x));
    } else {
        let b1 = b.drop_last();
        assert(all_alnum(b1)) by {
            assert forall|i: int| 0 <= i < b1.len() implies is_ascii_alnum(#[trigger] b1[i]) by {
                assert(b1[i] == b[i]);
            }
        }
        lemma_pieces_extend(x, b1);
        assert((x + b).drop_last() =~= x + b1);
        assert((x + b).last() == b.last());
        assert(is_ascii_alnum(b[b.len() - 1]));
        let t = ascii_pieces(x);
        assert(ascii_pieces(x + b) =~= t.update(t.len() - 1, t.last() + b)) by {
            assert(t.last() + b1 + seq![b.last()] =~= t.last() + b);
            assert((t.last() + b1).push(b.last()) =~= t.last() + b);
        }
    }
}

proof fn lemma_pieces_nonempty_list(x: Seq<char>)
    ensures
        ascii_pieces(x).len() > 0,
    decreases x.len(),
{
    if x.len() > 0 {
        lemma_pieces_nonempty_list(x.drop_last());
    }
}

/// The pieces of joined capitalized words are those words.
proof fn lemma_pieces_of_join(ws: Seq<Seq<char>>)
    requires
        alnum_words(ws),
    ensures
        ascii_pieces(ascii_join_caps(ws)) == (if ws.len() == 0 { seq![seq![]] } else { caps(ws) }),
        all_alnum_or_sep(ascii_join_caps(ws)),
    decreases ws.len(),
{
    if ws.len() == 0 {
    } else if ws.len() == 1 {
        lemma_capitalize_alnum(ws[0]);
        let c = ascii_capitalize(ws[0]);
        lemma_pieces_extend(Seq::<char>::empty(), c);
        assert(Seq::<char>::empty() + c =~= c);
        assert(ascii_pieces(Seq::<char>::empty()) == seq![Seq::<char>::empty()]);
        assert(Seq::<char>::empty() + c =~= c);
        assert(caps(ws) =~= seq![c]);
        assert(seq![Seq::<char>::empty()].update(0, Seq::<char>::empty() + c) =~= seq![c]);
    } else {
        let init = ws.drop_last();
        assert(alnum_words(init)) by {
            assert forall|k: int| 0 <= k < init.len() implies (#[trigger] init[k]).len() > 0 && all_alnum(init[k]) by {
                assert(init[k] == ws[k]);
            }
        }
        lemma_pieces_of_join(init);
        lemma_capitalize_alnum(ws.last());
        let j0 = ascii_join_caps(init);
        let c = ascii_capitalize(ws.last());
        let x = j0 + seq!['_'];
        assert(x.drop_last() =~= j0);
        assert(ascii_pieces(x) == ascii_pieces(j0).push(seq![]));
        lemma_pieces_extend(x, c);
        assert(ascii_join_caps(ws) == x + c);
        assert(ascii_pieces(x + c) =~= caps(ws)) by {
            assert(Seq::<char>::empty() + c =~= c);
            assert(caps(init).push(c) =~= caps(ws));
        }
        assert(all_alnum_or_sep(x + c)) by {
            assert forall|i: int| 0 <= i < (x + c).len() implies is_ascii_alnum(#[trigger] (x + c)[i]) || (x + c)[i] == '_' by {
                if i < j0.len() {
                    assert((x + c)[i] == j0[i]);
                } else if i > j0.len() {
                    assert((x + c)[i] == c[i - j0.len() - 1]);
                }
            }
        }
    }
}

/// Letters, digits and `_` only.
pub open spec fn all_alnum_or_sep(s: Seq<char>) -> bool {
    forall|i: int| 0 <= i < s.len() ==> is_ascii_alnum(#[trigger] s[i]) || s[i] == '_'
}

proof fn lemma_nonempty_keeps(ps: Seq<Seq<char>>)
    requires
        forall|k: int| 0 <= k < ps.len() ==> all_alnum(#[trigger] ps[k]),
    ensures
        alnum_words(nonempty(ps)),
        (forall|k: int| 0 <= k < ps.len() ==> (#[trigger] ps[k]).len() > 0) ==> nonempty(ps) == ps,
    decreases ps.len(),
{
    if ps.len() > 0 {
        lemma_nonempty_keeps(ps.drop_last());
        let r = nonempty(ps.drop_last());
        if ps.last().len() > 0 {
            assert forall|k: int| 0 <= k < r.push(ps.last()).len() implies (#[trigger] r.push(ps.last())[k]).len() > 0
                && all_alnum(r.push(ps.last())[k]) by {
                if k < r.len() {
                    assert(r.push(ps.last())[k] == r[k]);
                }
            }
        }
        if forall|k: int| 0 <= k < ps.len() ==> (#[trigger] ps[k]).len() > 0 {
            assert forall|k: int| 0 <= k < ps.drop_last().len() implies (#[trigger] ps.drop_last()[k]).len() > 0 by {
                assert(ps.drop_last()[k] == ps[k]);
            }
            assert(ps.last().len() > 0);
            assert(ps.drop_last().push(ps.last()) =~= ps);
        }
    }
}

proof fn lemma_pieces_alnum(s: Seq<char>)
    ensures
        forall|k: int| 0 <= k < ascii_pieces(s).len() ==> all_alnum(#[trigger] ascii_pieces(s)[k]),
    decreases s.len(),
{
    if s.len() > 0 {
        lemma_pieces_alnum(s.drop_last());
        let t = ascii_pieces(s.drop_last());
        lemma_pieces_nonempty_list(s.drop_last());
        if is_ascii_alnum(s.last()) {
            let l = t.last().push(s.last());
            assert(all_alnum(t[t.len() - 1]));
            assert(all_alnum(l)) by {
                assert forall|i: int| 0 <= i < l.len() implies is_ascii_alnum(#[trigger] l[i]) by {
                    if i < t.last().len() {
                        assert(l[i] == t[t.len() - 1][i]);
                    }
                }
            }
        }
    }
}

proof fn lemma_join_caps_caps(ws: Seq<Seq<char>>)
    requires
        alnum_words(ws),
    ensures
        ascii_join_caps(caps(ws)) == ascii_join_caps(ws),
    decreases ws.len(),
{
    if ws.len() > 0 {
        lemma_capitalize_alnum(ws.last());
        if ws.len() == 1 {
            lemma_capitalize_alnum(ws[0]);
        } else {
            let init = ws.drop_last();
            assert(alnum_words(init)) by {
                assert forall|k: int| 0 <= k < init.len() implies (#[trigger] init[k]).len() > 0 && all_alnum(init[k]) by {
                    assert(init[k] == ws[k]);
                }
            }
            lemma_join_caps_caps(init);
            assert(caps(ws).drop_last() =~= caps(init));
        }
    }
}

/// For every name, the ASCII sanitization holds only letters, digits and
/// `_`, and sanitizing it again changes nothing: field names and witness
/// keys produced from sanitized names stay the same.
pub proof fn law_sanitize_ascii_idempotent(s: Seq<char>)
    ensures
        all_alnum_or_sep(sanitize_ascii(s)),
        sanitize_ascii(sanitize_ascii(s)) == sanitize_ascii(s),
{
    let ws = nonempty(ascii_pieces(s));
    lemma_pieces_alnum(s);
    lemma_nonempty_keeps(ascii_pieces(s));
    lemma_pieces_of_join(ws);
    if ws.len() == 0 {
        let one = seq![Seq::<char>::empty()];
        assert(one.drop_last() =~= Seq::<Seq<char>>::empty());
        assert(one.last().len() == 0);
        assert(nonempty(Seq::<Seq<char>>::empty()) == Seq::<Seq<char>>::empty());
        assert(nonempty(one) == nonempty(one.drop_last()));
        assert(nonempty(one) =~= Seq::<Seq<char>>::empty());
    } else {
        assert forall|k: int| 0 <= k < caps(ws).len() implies all_alnum(#[trigger] caps(ws)[k]) by {
            lemma_capitalize_alnum(ws[k]);
        }
        assert forall|k: int| 0 <= k < caps(ws).len() implies (#[trigger] caps(ws)[k]).len() > 0 by {
            lemma_capitalize_alnum(ws[k]);
        }
        lemma_nonempty_keeps(caps(ws));
        lemma_join_caps_caps(ws);
    }
}


/// An ASCII lowercase letter.
pub open spec fn is_ascii_lower(c: char) -> bool {
    'a' <= c <= 'z'
}

/// The shape of a joined name: letters, digits and `_` only; not empty
/// unless there are no words; no `_` first, last or twice in a row; and the
/// first character and every character after `_` not a lowercase letter.
pub open spec fn go_name_shape(r: Seq<char>) -> bool {
    &&& all_alnum_or_sep(r)
    &&& r.len() > 0 ==> r[0] != '_' && r[r.len() - 1] != '_' && !is_ascii_lower(r[0])
    &&& forall|i: int| 0 <= i < r.len() - 1 && #[trigger] r[i] == '_' ==> r[i + 1] != '_' && !is_ascii_lower(r[i + 1])
}

proof fn lemma_upper_not_lower(c: char)
    ensures
        !is_ascii_lower(ascii_upper(c)),
{
    if 'a' <= c <= 'z' {
        let u = ascii_upper(c);
        assert(u == ((c as u32) - 32) as char);
        assert('A' <= u <= 'Z');
    }
}

proof fn lemma_join_shape(ws: Seq<Seq<char>>)
    requires
        alnum_words(ws),
    ensures
        go_name_shape(ascii_join_caps(ws)),
        ws.len() > 0 ==> ascii_join_caps(ws).len() > 0,
    decreases ws.len(),
{
    lemma_pieces_of_join(ws);
    if ws.len() == 1 {
        lemma_capitalize_alnum(ws[0]);
        lemma_upper_not_lower(ws[0][0]);
        let c = ascii_capitalize(ws[0]);
        assert(c[0] == ascii_upper(ws[0][0]));
        assert forall|i: int| 0 <= i < c.len() implies c[i] != '_' by {
            assert(is_ascii_alnum(c[i]));
        }
    } else if ws.len() > 1 {
        let init = ws.drop_last();
        assert(alnum_words(init)) by {
            assert forall|k: int| 0 <= k < init.len() implies (#[trigger] init[k]).len() > 0 && all_alnum(init[k]) by {
                assert(init[k] == ws[k]);
            }
        }
        lemma_join_shape(init);
        lemma_capitalize_alnum(ws.last());
        lemma_upper_not_lower(ws.last()[0]);
        let j0 = ascii_join_caps(init);
        let c = ascii_capitalize(ws.last());
        let r = j0 + seq!['_'] + c;
        assert(ascii_join_caps(ws) == r);
        assert(c[0] == ascii_upper(ws.last()[0]));
        assert forall|i: int| 0 <= i < c.len() implies c[i] != '_' by {
            assert(is_ascii_alnum(c[i]));
        }
        assert(r[0] == j0[0]);
        assert(r[r.len() - 1] == c[c.len() - 1]);
        assert forall|i: int| 0 <= i < r.len() - 1 && #[trigger] r[i] == '_' implies r[i + 1] != '_' && !is_ascii_lower(r[i + 1]) by {
            if i < j0.len() - 1 {
                assert(r[i] == j0[i] && r[i + 1] == j0[i + 1]);
            } else if i == j0.len() - 1 {
                assert(r[i] == j0[i]);
            } else if i == j0.len() {
                assert(r[i + 1] == c[0]);
            } else {
                assert(r[i] == c[i - j0.len() - 1]);
            }
        }
    }
}

/// The shape of every sanitized name: only letters, digits and `_`; no `_`
/// at either end or twice in a row; each piece starts with a character
/// that is not a lowercase letter; and the pieces are those of the name,
/// capitalized, in order.
pub proof fn law_sanitize_ascii_shape(s: Seq<char>)
    ensures
        go_name_shape(sanitize_ascii(s)),
        sanitize_ascii(s) == ascii_join_caps(nonempty(ascii_pieces(s))),
        alnum_words(nonempty(ascii_pieces(s))),
{
    lemma_pieces_alnum(s);
    lemma_nonempty_keeps(ascii_pieces(s));
    lemma_join_shape(nonempty(ascii_pieces(s)));
}


/// The pieces laid end to end.
pub open spec fn concat_pieces(ps: Seq<Seq<char>>) -> Seq<char>
    decreases ps.len(),
{
    if ps.len() == 0 {
        seq![]
    } else {
        concat_pieces(ps.drop_last()) + ps.last()
    }
}

proof fn lemma_concat_update_last(ps: Seq<Seq<char>>, w: Seq<char>)
    requires
        ps.len() > 0,
    ensures
        concat_pieces(ps.update(ps.len() - 1, w)) == concat_pieces(ps.drop_last()) + w,
{
    assert(ps.update(ps.len() - 1, w).drop_last() =~= ps.drop_last());
}

proof fn lemma_concat_nonempty(ps: Seq<Seq<char>>)
    ensures
        concat_pieces(nonempty(ps)) == concat_pieces(ps),
    decreases ps.len(),
{
    if ps.len() > 0 {
        lemma_concat_nonempty(ps.drop_last());
        if ps.last().len() == 0 {
            assert(concat_pieces(ps.drop_last()) + ps.last() =~= concat_pieces(ps.drop_last()));
        } else {
            assert(nonempty(ps).drop_last() =~= nonempty(ps.drop_last()));
        }
    }
}

/// The pieces of a name, laid end to end, are its letters and digits in
/// order.
proof fn lemma_pieces_letters(s: Seq<char>)
    ensures
        concat_pieces(ascii_pieces(s)) == s.filter(|c: char| is_ascii_alnum(c)),
    decreases s.len(),
{
    reveal(Seq::filter);
    if s.len() == 0 {
        let one = seq![Seq::<char>::empty()];
        assert(one.drop_last() =~= Seq::<Seq<char>>::empty());
        assert(concat_pieces(Seq::<Seq<char>>::empty()) == Seq::<char>::empty());
        assert(one.last() == Seq::<char>::empty());
        assert(concat_pieces(one) == concat_pieces(one.drop_last()) + one.last());
        assert(concat_pieces(one) =~= Seq::<char>::empty());
    } else {
        lemma_pieces_letters(s.drop_last());
        lemma_pieces_nonempty_list(s.drop_last());
        let t = ascii_pieces(s.drop_last());
        if is_ascii_alnum(s.last()) {
            lemma_concat_update_last(t, t.last().push(s.last()));
            assert(t.drop_last().push(t.last()) =~= t);
            assert(concat_pieces(t.drop_last()) + t.last().push(s.last()) =~= concat_pieces(t).push(s.last()));
        } else {
            assert(t.push(seq![]).drop_last() =~= t);
            assert(concat_pieces(t) + Seq::<char>::empty() =~= concat_pieces(t));
        }
    }
}

/// The words a name is sanitized from, laid end to end, are its ASCII
/// letters and digits in order: sanitizing keeps every letter and digit,
/// in order, and changes only the first of each piece (to uppercase).
pub proof fn law_sanitize_keeps_letters(s: Seq<char>)
    ensures
        concat_pieces(nonempty(ascii_pieces(s))) == s.filter(|c: char| is_ascii_alnum(c)),
        sanitize_ascii(s) == ascii_join_caps(nonempty(ascii_pieces(s))),
{
    lemma_concat_nonempty(ascii_pieces(s));
    lemma_pieces_letters(s);
}

} // verus!
