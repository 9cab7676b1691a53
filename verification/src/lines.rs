//! The line model: how a byte text splits at newline bytes into complete
//! lines and a trailing incomplete remainder, and what the adapter forwards
//! for each of them.

use vstd::prelude::*;

verus! {

/// Index of the first newline byte of `t`, or `t.len()` when `t` holds none.
pub open spec fn find_nl(t: Seq<u8>) -> int
    decreases t.len(),
{
    if t.len() == 0 {
        0
    } else if t[0] == 10u8 {
        0
    } else {
        1 + find_nl(t.drop_first())
    }
}

/// What the sink receives for one complete line: the prefix (withheld from an
/// empty line unless `prefix_empty` is set), the line, and its terminator.
pub open spec fn emit_line(prefix: Seq<u8>, line: Seq<u8>, prefix_empty: bool) -> Seq<u8> {
    if prefix_empty || line.len() > 0 {
        prefix + line + seq![10u8]
    } else {
        seq![10u8]
    }
}

/// Everything the sink receives for the complete lines of `t`, in order.
/// The trailing segment after the last newline is withheld.
pub open spec fn emitted(prefix: Seq<u8>, t: Seq<u8>, prefix_empty: bool) -> Seq<u8>
    decreases t.len(),
{
    let i = find_nl(t);
    if 0 <= i < t.len() {
        emit_line(prefix, t.subrange(0, i), prefix_empty) + emitted(
            prefix,
            t.subrange(i + 1, t.len() as int),
            prefix_empty,
        )
    } else {
        Seq::empty()
    }
}

/// The pending remainder left after consuming `t`: the non-empty segment
/// after the last newline, or nothing when `t` ends at a line boundary.
pub open spec fn rem_after(t: Seq<u8>) -> Option<Seq<u8>>
    decreases t.len(),
{
    let i = find_nl(t);
    if 0 <= i < t.len() {
        rem_after(t.subrange(i + 1, t.len() as int))
    } else if t.len() > 0 {
        Some(t)
    } else {
        None
    }
}

/// The effective text a write works on: the pending remainder, if any,
/// followed by the newly arrived text.
pub open spec fn effective(rem: Option<Seq<u8>>, input: Seq<u8>) -> Seq<u8> {
    match rem {
        Some(r) => r + input,
        None => input,
    }
}

/// What a flush forwards for the pending remainder: prefix and remainder,
/// nothing when no line is open. An empty open line is skipped unless
/// `prefix_empty` is set, which forwards the bare prefix for it.
pub open spec fn flushed(prefix: Seq<u8>, rem: Option<Seq<u8>>, prefix_empty: bool) -> Seq<u8> {
    match rem {
        Some(r) => if prefix_empty || r.len() > 0 {
            prefix + r
        } else {
            Seq::empty()
        },
        None => Seq::empty(),
    }
}

/// The UTF-8 bytes of the text that lossy decoding makes of arbitrary bytes.
/// Names the result of `String::from_utf8_lossy`, which depends on the input
/// bytes alone.
pub uninterp spec fn lossy_of(b: Seq<u8>) -> Seq<u8>;

/// Relies on `String::from_utf8_lossy`: the decoded text is a function of the
/// input bytes alone, and input that already is valid UTF-8 comes back
/// unchanged, as its documentation states.
#[verifier::external_body]
pub(crate) fn decode_lossy(buf: &[u8]) -> (r: Vec<u8>)
    ensures
        r@ == lossy_of(buf@),
        vstd::utf8::valid_utf8(buf@) ==> r@ == buf@,
{
    String::from_utf8_lossy(buf).into_owned().into_bytes()
}

/// The mathematical value of an optional byte buffer.
pub open spec fn rem_view(r: Option<Vec<u8>>) -> Option<Seq<u8>> {
    match r {
        Some(v) => Some(v@),
        None => None,
    }
}

pub proof fn lemma_find_nl_bounds(t: Seq<u8>)
    ensures
        0 <= find_nl(t) <= t.len(),
        forall|j: int| 0 <= j < find_nl(t) ==> t[j] != 10u8,
        find_nl(t) < t.len() ==> t[find_nl(t)] == 10u8,
    decreases t.len(),
{
    if t.len() == 0 {
    } else if t[0] == 10u8 {
    } else {
        lemma_find_nl_bounds(t.drop_first());
        assert(forall|j: int| 0 < j < find_nl(t) ==> t[j] == t.drop_first()[j - 1]);
    }
}

pub proof fn lemma_find_nl_first(t: Seq<u8>, i: int)
    requires
        0 <= i < t.len(),
        t[i] == 10u8,
        forall|j: int| 0 <= j < i ==> t[j] != 10u8,
    ensures
        find_nl(t) == i,
    decreases i,
{
    if i == 0 {
    } else {
        assert(forall|j: int| 0 <= j < i - 1 ==> t.drop_first()[j] == t[j + 1]);
        lemma_find_nl_first(t.drop_first(), i - 1);
    }
}

pub proof fn lemma_find_nl_append(t: Seq<u8>, u: Seq<u8>)
    requires
        find_nl(t) < t.len(),
    ensures
        find_nl(t + u) == find_nl(t),
{
    lemma_find_nl_bounds(t);
    assert(forall|j: int| 0 <= j < find_nl(t) ==> (t + u)[j] == t[j]);
    lemma_find_nl_first(t + u, find_nl(t));
}

pub proof fn lemma_find_nl_no_nl(t: Seq<u8>)
    requires
        forall|j: int| 0 <= j < t.len() ==> t[j] != 10u8,
    ensures
        find_nl(t) == t.len(),
{
    lemma_find_nl_bounds(t);
}

/// Appending one newline-free line and its terminator to text that ends at a
/// line boundary extends the forwarded output by exactly that line's emission.
pub proof fn lemma_emit_step(prefix: Seq<u8>, a: Seq<u8>, line: Seq<u8>, prefix_empty: bool)
    requires
        a.len() == 0 || a.last() == 10u8,
        forall|j: int| 0 <= j < line.len() ==> line[j] != 10u8,
    ensures
        emitted(prefix, a + line + seq![10u8], prefix_empty) == emitted(prefix, a, prefix_empty)
            + emit_line(prefix, line, prefix_empty),
    decreases a.len(),
{
    let w = a + line + seq![10u8];
    if a.len() == 0 {
        assert(w =~= line + seq![10u8]);
        assert(w[line.len() as int] == 10u8);
        lemma_find_nl_first(w, line.len() as int);
        assert(w.subrange(0, line.len() as int) =~= line);
        assert(w.subrange(line.len() as int + 1, w.len() as int) =~= Seq::<u8>::empty());
        assert(emitted(prefix, Seq::<u8>::empty(), prefix_empty) =~= Seq::<u8>::empty());
        assert(emitted(prefix, w, prefix_empty) =~= emit_line(prefix, line, prefix_empty));
        assert(emitted(prefix, a, prefix_empty) =~= Seq::<u8>::empty());
    } else {
        let k = find_nl(a);
        lemma_find_nl_bounds(a);
        assert(k < a.len()) by {
            if k == a.len() {
                assert(a[a.len() - 1] == 10u8);
                assert(false);
            }
        }
        lemma_find_nl_append(a, line + seq![10u8]);
        assert(w =~= a + (line + seq![10u8]));
        assert(find_nl(w) == k);
        let a2 = a.subrange(k + 1, a.len() as int);
        assert(w.subrange(0, k) =~= a.subrange(0, k));
        assert(w.subrange(k + 1, w.len() as int) =~= a2 + line + seq![10u8]);
        assert(a2.len() == 0 || a2.last() == 10u8);
        lemma_emit_step(prefix, a2, line, prefix_empty);
        assert(emitted(prefix, w, prefix_empty) =~= emitted(prefix, a, prefix_empty)
            + emit_line(prefix, line, prefix_empty));
    }
}

/// Text that ends at a line boundary followed by a newline-free tail forwards
/// only the boundary-ended part; the tail, if non-empty, becomes the remainder.
pub proof fn lemma_split_complete(prefix: Seq<u8>, a: Seq<u8>, tail: Seq<u8>, prefix_empty: bool)
    requires
        a.len() == 0 || a.last() == 10u8,
        forall|j: int| 0 <= j < tail.len() ==> tail[j] != 10u8,
    ensures
        emitted(prefix, a + tail, prefix_empty) == emitted(prefix, a, prefix_empty),
        rem_after(a + tail) == if tail.len() > 0 {
            Some(tail)
        } else {
            None::<Seq<u8>>
        },
    decreases a.len(),
{
    let w = a + tail;
    if a.len() == 0 {
        assert(w =~= tail);
        lemma_find_nl_no_nl(tail);
        assert(emitted(prefix, a, prefix_empty) =~= Seq::<u8>::empty());
    } else {
        let k = find_nl(a);
        lemma_find_nl_bounds(a);
        assert(k < a.len()) by {
            if k == a.len() {
                assert(a[a.len() - 1] == 10u8);
                assert(false);
            }
        }
        lemma_find_nl_append(a, tail);
        assert(find_nl(w) == k);
        let a2 = a.subrange(k + 1, a.len() as int);
        assert(w.subrange(0, k) =~= a.subrange(0, k));
        assert(w.subrange(k + 1, w.len() as int) =~= a2 + tail);
        assert(a2.len() == 0 || a2.last() == 10u8);
        lemma_split_complete(prefix, a2, tail, prefix_empty);
    }
}

/// Law: writing text that holds no line terminator from a state with no
/// pending line and then flushing forwards exactly prefix + text; empty
/// text flushes to nothing.
pub proof fn lemma_unterminated_write_then_flush(prefix: Seq<u8>, t: Seq<u8>, prefix_empty: bool)
    requires
        forall|j: int| 0 <= j < t.len() ==> t[j] != 10u8,
    ensures
        emitted(prefix, effective(None::<Seq<u8>>, t), prefix_empty) + flushed(
            prefix,
            rem_after(effective(None::<Seq<u8>>, t)),
            prefix_empty,
        ) == if t.len() > 0 {
            prefix + t
        } else {
            Seq::<u8>::empty()
        },
{
    lemma_find_nl_no_nl(t);
    if t.len() > 0 {
        assert(Seq::<u8>::empty() + (prefix + t) =~= prefix + t);
    } else {
        assert(Seq::<u8>::empty() + Seq::<u8>::empty() =~= Seq::<u8>::empty());
    }
}

/// Law: input consisting solely of line terminators passes through
/// unchanged — empty lines are never prefixed — and leaves no pending line,
/// so a following flush forwards nothing for it.
pub proof fn lemma_terminators_only_unchanged(prefix: Seq<u8>, t: Seq<u8>)
    requires
        forall|j: int| 0 <= j < t.len() ==> t[j] == 10u8,
    ensures
        emitted(prefix, t, false) == t,
        rem_after(t) == None::<Seq<u8>>,
    decreases t.len(),
{
    if t.len() == 0 {
        assert(emitted(prefix, t, false) =~= t);
    } else {
        assert(t[0] == 10u8);
        assert(find_nl(t) == 0);
        let t2 = t.subrange(1, t.len() as int);
        lemma_terminators_only_unchanged(prefix, t2);
        assert(t.subrange(0, 0) =~= Seq::<u8>::empty());
        assert(emit_line(prefix, Seq::<u8>::empty(), false) =~= seq![10u8]);
        assert(emitted(prefix, t, false) =~= seq![10u8] + t2);
        assert(seq![10u8] + t2 =~= t);
    }
}

/// Law (chunking invariance): splitting one text across two successive
/// writes forwards the same bytes and leaves the same pending line as
/// writing the whole text at once. The law speaks of decoded text: a split
/// that falls inside one character's byte sequence changes what each write
/// decodes, so only the decoded pieces compose.
pub proof fn lemma_write_chunking(prefix: Seq<u8>, t: Seq<u8>, u: Seq<u8>, prefix_empty: bool)
    ensures
        emitted(prefix, t + u, prefix_empty) == emitted(prefix, t, prefix_empty) + emitted(
            prefix,
            effective(rem_after(t), u),
            prefix_empty,
        ),
        rem_after(t + u) == rem_after(effective(rem_after(t), u)),
    decreases t.len(),
{
    lemma_find_nl_bounds(t);
    let k = find_nl(t);
    if k < t.len() {
        lemma_find_nl_append(t, u);
        let t2 = t.subrange(k + 1, t.len() as int);
        let w = t + u;
        assert(w.subrange(0, k) =~= t.subrange(0, k));
        assert(w.subrange(k + 1, w.len() as int) =~= t2 + u);
        lemma_write_chunking(prefix, t2, u, prefix_empty);
        let x = emit_line(prefix, t.subrange(0, k), prefix_empty);
        let y = emitted(prefix, t2, prefix_empty);
        let z = emitted(prefix, effective(rem_after(t2), u), prefix_empty);
        assert((x + y) + z =~= x + (y + z));
    } else {
        if t.len() > 0 {
            assert(Seq::<u8>::empty() + emitted(prefix, t + u, prefix_empty) =~= emitted(
                prefix,
                t + u,
                prefix_empty,
            ));
        } else {
            assert(t + u =~= u);
            assert(Seq::<u8>::empty() + emitted(prefix, u, prefix_empty) =~= emitted(
                prefix,
                u,
                prefix_empty,
            ));
        }
    }
}

/// Law: with no intervening write and no pending content, flushing twice
/// forwards the same bytes as flushing once: nothing. A non-empty pending
/// line stands outside this law: each flush forwards it again.
pub proof fn lemma_flush_without_pending_idempotent(prefix: Seq<u8>, rem: Option<Seq<u8>>)
    requires
        match rem {
            Some(r) => r.len() == 0,
            None => true,
        },
    ensures
        flushed(prefix, rem, false) + flushed(prefix, rem, false) == flushed(prefix, rem, false),
{
    assert(flushed(prefix, rem, false) =~= Seq::<u8>::empty());
    assert(Seq::<u8>::empty() + Seq::<u8>::empty() =~= Seq::<u8>::empty());
}

/// Whether a byte sequence begins with `prefix`.
pub open spec fn starts_with(s: Seq<u8>, prefix: Seq<u8>) -> bool {
    prefix.len() <= s.len() && s.subrange(0, prefix.len() as int) == prefix
}

/// Every complete non-empty line of `out` begins with `prefix`. (An empty
/// line cannot begin with a non-empty prefix at all, so empty lines are
/// only ever bare.)
pub open spec fn lines_prefixed(prefix: Seq<u8>, out: Seq<u8>) -> bool
    decreases out.len(),
{
    let i = find_nl(out);
    if 0 <= i < out.len() {
        (i != 0 ==> starts_with(out.subrange(0, i), prefix)) && lines_prefixed(
            prefix,
            out.subrange(i + 1, out.len() as int),
        )
    } else {
        true
    }
}

/// Law: when the prefix itself holds no line terminator, every non-empty
/// line of the forwarded output starts with the configured prefix.
pub proof fn lemma_output_lines_prefixed(prefix: Seq<u8>, t: Seq<u8>, prefix_empty: bool)
    requires
        forall|j: int| 0 <= j < prefix.len() ==> prefix[j] != 10u8,
    ensures
        lines_prefixed(prefix, emitted(prefix, t, prefix_empty)),
    decreases t.len(),
{
    lemma_find_nl_bounds(t);
    let k = find_nl(t);
    if k < t.len() {
        let line = t.subrange(0, k);
        let t2 = t.subrange(k + 1, t.len() as int);
        let rest = emitted(prefix, t2, prefix_empty);
        lemma_output_lines_prefixed(prefix, t2, prefix_empty);
        let chunk = emit_line(prefix, line, prefix_empty);
        let out = chunk + rest;
        assert(emitted(prefix, t, prefix_empty) == out);
        if prefix_empty || line.len() > 0 {
            let m = prefix.len() + line.len();
            assert(out[m as int] == 10u8);
            assert(forall|j: int| 0 <= j < m ==> out[j] != 10u8);
            lemma_find_nl_first(out, m as int);
            assert(out.subrange(0, m as int) =~= prefix + line);
            assert(out.subrange(m as int + 1, out.len() as int) =~= rest);
            if m != 0 {
                assert((prefix + line).subrange(0, prefix.len() as int) =~= prefix);
                assert(starts_with(out.subrange(0, m as int), prefix));
            }
        } else {
            assert(out[0] == 10u8);
            lemma_find_nl_first(out, 0);
            assert(out.subrange(1, out.len() as int) =~= rest);
        }
    }
}

/// Copies `src[from..to]` onto the end of `dst`, byte by byte.
pub(crate) fn push_range(dst: &mut Vec<u8>, src: &[u8], from: usize, to: usize)
    requires
        from <= to <= src@.len(),
    ensures
        final(dst)@ == old(dst)@ + src@.subrange(from as int, to as int),
{
    proof {
        assert(old(dst)@ + src@.subrange(from as int, from as int) =~= old(dst)@);
    }
    let mut k: usize = from;
    while k < to
        invariant
            from <= k <= to <= src@.len(),
            dst@ == old(dst)@ + src@.subrange(from as int, k as int),
        decreases to - k,
    {
        let b: u8 = src[k];
        dst.push(b);
        proof {
            assert(src@.subrange(from as int, (k + 1) as int) =~= src@.subrange(
                from as int,
                k as int,
            ).push(src@[k as int]));
        }
        k = k + 1;
    }
    proof {
        assert(src@.subrange(from as int, to as int) == src@.subrange(from as int, k as int));
    }
}

/// The shared write step: decoded text arrives, the pending remainder is put
/// before it, every completed line goes to `writer` through `emit_line`, and
/// the trailing incomplete line, if any, is the new remainder.
pub(crate) fn process(
    prefix: &Vec<u8>,
    remainder: &Option<Vec<u8>>,
    input: &[u8],
    prefix_empty: bool,
    writer: &mut Vec<u8>,
) -> (new_rem: Option<Vec<u8>>)
    ensures
        final(writer)@ == old(writer)@ + emitted(
            prefix@,
            effective(rem_view(*remainder), input@),
            prefix_empty,
        ),
        rem_view(new_rem) == rem_after(effective(rem_view(*remainder), input@)),
        new_rem matches Some(r) ==> r@.len() > 0,
{
    let mut text: Vec<u8> = Vec::new();
    match remainder {
        Some(r) => push_range(&mut text, r.as_slice(), 0, r.len()),
        None => (),
    }
    push_range(&mut text, input, 0, input.len());
    proof {
        assert(text@ =~= effective(rem_view(*remainder), input@));
    }
    let ghost t = text@;
    let mut start: usize = 0;
    let mut i: usize = 0;
    proof {
        assert(old(writer)@ + emitted(prefix@, t.subrange(0, 0), prefix_empty) =~= old(writer)@);
    }
    while i < text.len()
        invariant
            text@ == t,
            start <= i <= t.len(),
            start == 0 || t[start as int - 1] == 10u8,
            forall|j: int| start <= j < i ==> t[j] != 10u8,
            writer@ == old(writer)@ + emitted(prefix@, t.subrange(0, start as int), prefix_empty),
        decreases t.len() - i,
    {
        if text[i] == 10u8 {
            if prefix_empty || i > start {
                push_range(writer, prefix.as_slice(), 0, prefix.len());
            }
            push_range(writer, text.as_slice(), start, i);
            writer.push(10u8);
            proof {
                let a = t.subrange(0, start as int);
                let line = t.subrange(start as int, i as int);
                assert(forall|j: int| 0 <= j < line.len() ==> line[j] != 10u8);
                lemma_emit_step(prefix@, a, line, prefix_empty);
                assert(a + line + seq![10u8] =~= t.subrange(0, i as int + 1));
                assert(writer@ =~= old(writer)@ + emitted(
                    prefix@,
                    t.subrange(0, i as int + 1),
                    prefix_empty,
                ));
            }
            start = i + 1;
        }
        i = i + 1;
    }
    proof {
        let a = t.subrange(0, start as int);
        let tail = t.subrange(start as int, t.len() as int);
        assert(forall|j: int| 0 <= j < tail.len() ==> tail[j] != 10u8);
        lemma_split_complete(prefix@, a, tail, prefix_empty);
        assert(a + tail =~= t);
    }
    if start < text.len() {
        let mut r: Vec<u8> = Vec::new();
        push_range(&mut r, text.as_slice(), start, text.len());
        proof {
            assert(r@ =~= t.subrange(start as int, t.len() as int));
        }
        Some(r)
    } else {
        None
    }
}

} // verus!
