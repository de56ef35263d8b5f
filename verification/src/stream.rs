//! Whole streams: what a deframer makes of a sequence of reads, and the
//! files that come out of it.

use vstd::prelude::*;
use crate::framing::{idle, step, FramerState, ProgressView};

verus! {

/// A file as the receiver rebuilds it: the name from its header and the
/// bytes handed on for it.
pub struct FileView {
    pub name: Seq<u8>,
    pub content: Seq<u8>,
}

/// The files rebuilt so far: those that are complete, in order, and the
/// one that is still being received.
pub struct Assembly {
    pub done: Seq<FileView>,
    pub open: Option<FileView>,
}

/// No file yet.
pub open spec fn nothing() -> Assembly {
    Assembly { done: Seq::empty(), open: None }
}

/// Feeds `chunks` to a deframer in state `s`, one after another: the
/// state at the end, and what each chunk handed on.
pub open spec fn run(s: FramerState, chunks: Seq<Seq<u8>>) -> (FramerState, Seq<ProgressView>)
    decreases chunks.len(),
{
    if chunks.len() == 0 {
        (s, Seq::empty())
    } else {
        let (next, out) = step(s, chunks.first());
        let (last, outs) = run(next, chunks.drop_first());
        (last, seq![out] + outs)
    }
}

/// Adds what one chunk handed on to the files rebuilt so far: a header
/// opens a file, data goes to the open file, and completion closes it.
pub open spec fn absorb(acc: Assembly, out: ProgressView) -> Assembly {
    let opened = match out.header {
        Some(name) => Some(FileView { name, content: Seq::empty() }),
        None => acc.open,
    };
    match opened {
        Some(file) => {
            let grown = FileView { name: file.name, content: file.content + out.data };
            if out.complete {
                Assembly { done: acc.done.push(grown), open: None }
            } else {
                Assembly { done: acc.done, open: Some(grown) }
            }
        },
        None => Assembly { done: acc.done, open: None },
    }
}

/// Adds what a sequence of chunks handed on to the files rebuilt so far.
pub open spec fn assemble_onto(acc: Assembly, outs: Seq<ProgressView>) -> Assembly
    decreases outs.len(),
{
    if outs.len() == 0 {
        acc
    } else {
        assemble_onto(absorb(acc, outs.first()), outs.drop_first())
    }
}

/// The files that a sequence of chunks rebuilt.
pub open spec fn assemble(outs: Seq<ProgressView>) -> Assembly {
    assemble_onto(nothing(), outs)
}

/// A chunk that handed nothing on leaves the files as they are.
pub proof fn lemma_absorb_idle(acc: Assembly)
    ensures
        absorb(acc, idle()) == acc,
{
    match acc.open {
        Some(file) => {
            assert(file.content + Seq::<u8>::empty() =~= file.content);
        },
        None => {},
    }
}

/// Feeding `a` and then `b` is feeding `a + b`.
pub proof fn lemma_run_concat(s: FramerState, a: Seq<Seq<u8>>, b: Seq<Seq<u8>>)
    ensures
        run(s, a + b).0 == run(run(s, a).0, b).0,
        run(s, a + b).1 == run(s, a).1 + run(run(s, a).0, b).1,
    decreases a.len(),
{
    if a.len() == 0 {
        assert(a + b =~= b);
        assert(run(s, a).1 + run(s, b).1 =~= run(s, b).1);
    } else {
        let next = step(s, a.first()).0;
        assert((a + b).first() == a.first());
        assert((a + b).drop_first() =~= a.drop_first() + b);
        lemma_run_concat(next, a.drop_first(), b);
        let mid = run(next, a.drop_first()).0;
        assert(run(s, a + b).1 =~= run(s, a).1 + run(mid, b).1);
    }
}

/// Adding the reports of `a` and then those of `b` is adding those of `a + b`.
pub proof fn lemma_assemble_concat(acc: Assembly, a: Seq<ProgressView>, b: Seq<ProgressView>)
    ensures
        assemble_onto(acc, a + b) == assemble_onto(assemble_onto(acc, a), b),
    decreases a.len(),
{
    if a.len() == 0 {
        assert(a + b =~= b);
    } else {
        assert((a + b).first() == a.first());
        assert((a + b).drop_first() =~= a.drop_first() + b);
        lemma_assemble_concat(absorb(acc, a.first()), a.drop_first(), b);
    }
}

/// Reads that bring no byte change neither the deframer nor the files.
pub proof fn lemma_run_empty_reads(s: FramerState, chunks: Seq<Seq<u8>>, acc: Assembly)
    requires
        chunks.flatten().len() == 0,
    ensures
        run(s, chunks).0 == s,
        assemble_onto(acc, run(s, chunks).1) == acc,
    decreases chunks.len(),
{
    if chunks.len() > 0 {
        let rest = chunks.drop_first();
        assert(chunks.flatten() == chunks.first() + rest.flatten());
        assert(chunks.first().len() == 0);
        lemma_run_empty_reads(s, rest, acc);
        lemma_absorb_idle(acc);
        let outs = run(s, chunks).1;
        assert(outs.first() == idle());
        assert(outs.drop_first() =~= run(s, rest).1);
    }
}

/// Where `chunks` make up what follows the first `got` bytes of `whole`,
/// the first chunk is the piece of `whole` that starts there, and the
/// other chunks make up what follows that piece.
pub proof fn lemma_first_chunk(chunks: Seq<Seq<u8>>, whole: Seq<u8>, got: int)
    requires
        chunks.len() > 0,
        0 <= got <= whole.len(),
        chunks.flatten() == whole.skip(got),
    ensures
        got + chunks.first().len() <= whole.len(),
        chunks.first() == whole.subrange(got, got + chunks.first().len()),
        chunks.drop_first().flatten() == whole.skip(got + chunks.first().len()),
{
    let chunk = chunks.first();
    let rest = chunks.drop_first().flatten();
    let arrived = got + chunk.len();
    assert(chunks.flatten() == chunk + rest);
    assert(chunk.len() <= whole.skip(got).len());
    assert(chunk =~= whole.subrange(got, arrived)) by {
        assert forall|i: int| 0 <= i < chunk.len() implies chunk[i] == whole[got + i] by {
            assert((chunk + rest)[i] == whole.skip(got)[i]);
        }
    }
    assert(rest =~= whole.skip(arrived)) by {
        assert forall|i: int| 0 <= i < rest.len() implies rest[i] == whole[arrived + i] by {
            assert((chunk + rest)[chunk.len() + i] == whole.skip(got)[chunk.len() + i]);
        }
    }
}

} // verus!
