//! The loop that pulls tokens and hands them to the tree builder.
use crate::builder::{feed, FrameModel, TreeBuilder};
use crate::iter::{step, Frame, JsonbIterator};
use crate::token::{DecodeError, JsonbToken, JsonbTraversal, TokenModel};
use crate::value::{Json, Value};
use vstd::prelude::*;

verus! {

/// A bound on the steps left from an iterator state: each step that is not
/// `Done` lowers it.
pub open spec fn progress(b: Seq<u8>, pos: int, frames: Seq<Frame>, started: bool) -> int {
    2 * (b.len() - pos) + frames.len() + if started {
        0int
    } else {
        1int
    }
}

/// Decoding from an iterator state and a builder state, stepping into every
/// container: the value built, or the first error of either.
pub open spec fn run(
    b: Seq<u8>,
    pos: int,
    frames: Seq<Frame>,
    started: bool,
    stack: Seq<FrameModel>,
    root: Option<Json>,
) -> Result<Json, DecodeError>
    decreases progress(b, pos, frames, started),
{
    match step(b, pos, frames, started, JsonbTraversal::StepInto) {
        Err(e) => Err(e),
        Ok((TokenModel::Done, _, _, _)) => if stack.len() == 0 && root is Some {
            Ok(root.unwrap())
        } else {
            Err(DecodeError::IncompleteDocument)
        },
        Ok((t, p, fs, s)) => match feed(stack, root, t) {
            Err(e) => Err(e),
            Ok((st, rt)) => if 0 <= progress(b, p, fs, s) < progress(b, pos, frames, started) {
                run(b, p, fs, s, st, rt)
            } else {
                Err(DecodeError::MalformedEncoding)
            },
        },
    }
}

/// The result of decoding the whole buffer `b`.
pub open spec fn decode_spec(b: Seq<u8>) -> Result<Json, DecodeError> {
    run(b, 0, Seq::empty(), false, Seq::empty(), None)
}

/// Every step that stepping into containers takes, short of `Done`, lowers
/// the progress bound and keeps it non-negative.
pub proof fn lemma_step_progress(b: Seq<u8>, pos: int, frames: Seq<Frame>, started: bool)
    requires
        0 <= pos <= b.len(),
        !started ==> frames.len() == 0,
    ensures
        match step(b, pos, frames, started, JsonbTraversal::StepInto) {
            Ok((t, p, fs, s)) => !(t is Done) ==> 0 <= progress(b, p, fs, s) < progress(
                b,
                pos,
                frames,
                started,
            ),
            Err(_) => true,
        },
{
}

/// Hands one token other than `Done` to the builder.
fn dispatch(builder: &mut TreeBuilder, tok: JsonbToken) -> (r: Result<JsonbTraversal, DecodeError>)
    requires
        old(builder).wf(),
        !(tok@ is Done),
    ensures
        TreeBuilder::fed(old(builder), final(builder), tok@, r),
{
    match tok {
        JsonbToken::BeginArray(n) => builder.begin_array(n),
        JsonbToken::EndArray => builder.end_array(),
        JsonbToken::BeginObject(n) => builder.begin_object(n),
        JsonbToken::EndObject => builder.end_object(),
        JsonbToken::Key(k) => builder.key(k),
        JsonbToken::Value(s) => builder.value(s),
        JsonbToken::Elem(s) => builder.elem(s),
        JsonbToken::Skipped { .. } => Err(DecodeError::UnexpectedToken),
        JsonbToken::Done => Err(DecodeError::UnexpectedToken),
    }
}

/// Decodes one encoded document into an owned tree.
pub fn decode(buf: &[u8]) -> (r: Result<Value, DecodeError>)
    ensures
        match decode_spec(buf@) {
            Ok(j) => r matches Ok(v) && v@ == j,
            Err(e) => r == Err::<Value, DecodeError>(e),
        },
{
    let mut it = JsonbIterator::new(buf);
    let mut builder = TreeBuilder::new();
    let mut d = JsonbTraversal::StepInto;
    loop
        invariant
            it.wf(),
            builder.wf(),
            it.buf@ == buf@,
            d == JsonbTraversal::StepInto,
            run(buf@, it.pos as int, it.frames@, it.started, builder.frames(), builder.root_json())
                == decode_spec(buf@),
        decreases progress(buf@, it.pos as int, it.frames@, it.started),
    {
        proof {
            lemma_step_progress(buf@, it.pos as int, it.frames@, it.started);
        }
        let tok = it.next(d)?;
        if let JsonbToken::Done = tok {
            return builder.done();
        }
        d = dispatch(&mut builder, tok)?;
    }
}

} // verus!
