//! Command dispatch: turning a parsed command into the ordered engine
//! operations it calls for.
//!
//! An `s` or `l` command with a nonempty argument speaks the argument: the
//! text is cleaned (each return-marker symbol becomes a space), chunked, and
//! one speak operation is emitted per chunk, in order. An `x` command emits
//! a single cancel operation. Anything else, including `s`/`l` with an empty
//! argument, emits nothing.

use vstd::prelude::*;

use crate::chunker::chunk_text;
use crate::chunker::chunks;
use crate::chunker::copy_chars;
use crate::chunker::lemma_char_vec_deep_view;
use crate::MAX_CHUNK_LEN;

verus! {

/// The Unicode return symbol; source text may embed it in place of a
/// literal newline, and cleaning replaces it with a plain space.
pub const RETURN_MARKER: char = '\u{23CE}';

/// `c` with the return marker replaced by a space.
pub open spec fn clean_char(c: char) -> char {
    if c == RETURN_MARKER {
        ' '
    } else {
        c
    }
}

/// `s` with every return marker replaced by a space.
pub open spec fn cleaned(s: Seq<char>) -> Seq<char> {
    s.map_values(|c: char| clean_char(c))
}

/// One operation submitted to the speech engine.
#[derive(Debug, PartialEq)]
pub enum EngineOp {
    /// Speak `text`; `interrupt` asks the engine to cut off any speech in
    /// progress rather than enqueue after it.
    Speak { text: Vec<char>, interrupt: bool },
    /// Cancel any speech currently in progress or queued.
    Cancel,
}

/// The mathematical value of one engine operation.
pub enum EngineOpView {
    Speak { text: Seq<char>, interrupt: bool },
    Cancel,
}

impl View for EngineOp {
    type V = EngineOpView;

    open spec fn view(&self) -> EngineOpView {
        match self {
            EngineOp::Speak { text, interrupt } => EngineOpView::Speak {
                text: text@,
                interrupt: *interrupt,
            },
            EngineOp::Cancel => EngineOpView::Cancel,
        }
    }
}

/// The values of a sequence of engine operations.
pub open spec fn ops_view(v: Seq<EngineOp>) -> Seq<EngineOpView> {
    v.map_values(|op: EngineOp| op@)
}

/// Whether a speak command cuts off speech in progress or enqueues after
/// it; the protocol's history is ambiguous on the point, so it is left
/// configurable rather than hard-coded.
#[derive(Clone, Copy)]
pub struct SpeakConfig {
    pub interrupt_on_speak: bool,
}

/// One speak operation per chunk, in order; only the first carries the
/// configured interrupt flag.
pub open spec fn speak_ops(cs: Seq<Seq<char>>, interrupt_first: bool) -> Seq<EngineOpView> {
    Seq::new(
        cs.len(),
        |k: int|
            EngineOpView::Speak { text: cs[k], interrupt: interrupt_first && k == 0 },
    )
}

/// The engine operations a command calls for.
pub open spec fn ops_for_command(code: char, arg: Seq<char>, cfg: SpeakConfig) -> Seq<
    EngineOpView,
> {
    if (code == 's' || code == 'l') && arg.len() > 0 {
        speak_ops(chunks(cleaned(arg), MAX_CHUNK_LEN as int), cfg.interrupt_on_speak)
    } else if code == 'x' {
        seq![EngineOpView::Cancel]
    } else {
        Seq::<EngineOpView>::empty()
    }
}

/// Replaces every return marker in `text` with a space.
pub fn clean_text(text: &[char]) -> (r: Vec<char>)
    ensures
        r@ == cleaned(text@),
{
    let mut r: Vec<char> = Vec::new();
    let mut i: usize = 0;
    proof {
        assert(r@ =~= cleaned(text@.take(0)));
    }
    while i < text.len()
        invariant
            i <= text@.len(),
            r@ == cleaned(text@.take(i as int)),
        decreases text@.len() - i,
    {
        let c = text[i];
        if c == RETURN_MARKER {
            r.push(' ');
        } else {
            r.push(c);
        }
        i += 1;
        proof {
            assert(cleaned(text@.take(i as int)) =~= cleaned(text@.take(i - 1)).push(
                clean_char(text@[i - 1]),
            ));
        }
    }
    proof {
        assert(text@.take(text@.len() as int) =~= text@);
    }
    r
}

/// Builds the engine operations that `ops_for_command` prescribes for one
/// command: clean, chunk, then one speak per chunk, or a single cancel.
pub fn dispatch_command(code: char, arg: &[char], cfg: SpeakConfig) -> (r: Vec<EngineOp>)
    ensures
        ops_view(r@) == ops_for_command(code, arg@, cfg),
{
    let mut r: Vec<EngineOp> = Vec::new();
    if (code == 's' || code == 'l') && arg.len() > 0 {
        let text = clean_text(arg);
        let cs = chunk_text(text.as_slice(), MAX_CHUNK_LEN);
        let ghost target = speak_ops(cs.deep_view(), cfg.interrupt_on_speak);
        let mut k: usize = 0;
        proof {
            assert(ops_view(r@) =~= target.take(0));
        }
        while k < cs.len()
            invariant
                k <= cs@.len(),
                cs@.len() == cs.deep_view().len(),
                target == speak_ops(cs.deep_view(), cfg.interrupt_on_speak),
                ops_view(r@) == target.take(k as int),
            decreases cs@.len() - k,
        {
            let chunk = copy_chars(cs[k].as_slice());
            proof {
                lemma_char_vec_deep_view(cs@[k as int]);
                assert(chunk@ == cs.deep_view()[k as int]);
            }
            let interrupt = cfg.interrupt_on_speak && k == 0;
            let ghost r0 = r@;
            let op = EngineOp::Speak { text: chunk, interrupt };
            let ghost opv = op@;
            r.push(op);
            k += 1;
            proof {
                assert(ops_view(r@) =~= ops_view(r0).push(opv));
                assert(target[k - 1] == opv);
                assert(target.take(k as int) =~= target.take(k - 1).push(target[k - 1]));
            }
        }
        proof {
            assert(target.take(cs.deep_view().len() as int) =~= target);
        }
    } else if code == 'x' {
        r.push(EngineOp::Cancel);
        proof {
            assert(ops_view(r@) =~= seq![EngineOpView::Cancel]);
        }
    } else {
        proof {
            assert(ops_view(r@) =~= Seq::<EngineOpView>::empty());
        }
    }
    r
}

/// Law: an `s` or `l` command with an empty argument calls for no engine
/// operation at all.
pub proof fn lemma_empty_speak_no_ops(code: char, cfg: SpeakConfig)
    requires
        code == 's' || code == 'l',
    ensures
        ops_for_command(code, Seq::<char>::empty(), cfg) == Seq::<EngineOpView>::empty(),
{
}

/// Law: cleaning keeps the text's length, replaces each occurrence of the
/// return marker with a single space, leaves every other character as it
/// was, and leaves no marker in the result.
pub proof fn lemma_cleaned_no_marker(s: Seq<char>)
    ensures
        cleaned(s).len() == s.len(),
        forall|i: int|
            0 <= i < s.len() ==> #[trigger] cleaned(s)[i] == if s[i] == RETURN_MARKER {
                ' '
            } else {
                s[i]
            },
        forall|i: int| 0 <= i < s.len() ==> #[trigger] cleaned(s)[i] != RETURN_MARKER,
{
    assert forall|i: int| 0 <= i < s.len() implies #[trigger] cleaned(s)[i] != RETURN_MARKER by {
        assert(cleaned(s)[i] == clean_char(s[i]));
    }
}

} // verus!
