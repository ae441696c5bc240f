//! The binary encoding and the pull iterator over it.
//!
//! An item starts with a tag byte:
//!
//! | tag | item                                                          |
//! |-----|---------------------------------------------------------------|
//! | 0   | null                                                          |
//! | 1   | false                                                         |
//! | 2   | true                                                          |
//! | 3   | number: a `u32` byte length, then the decimal digit string    |
//! | 4   | string: a `u32` byte length, then the UTF-8 bytes             |
//! | 5   | array: a `u32` element count, then the elements               |
//! | 6   | object: a `u32` pair count, then each key (a string item) and value |
//! | 7   | date and time: eight payload bytes, recognised but not handled |
//!
//! Every `u32` is four bytes, little-endian. A document is exactly one item.
use crate::token::{DecodeError, JsonbNumeric, JsonbScalar, JsonbString, JsonbToken, JsonbTraversal, ScalarModel, TokenModel};
use vstd::prelude::*;

verus! {

pub const TAG_NULL: u8 = 0;
pub const TAG_FALSE: u8 = 1;
pub const TAG_TRUE: u8 = 2;
pub const TAG_NUMBER: u8 = 3;
pub const TAG_STRING: u8 = 4;
pub const TAG_ARRAY: u8 = 5;
pub const TAG_OBJECT: u8 = 6;
pub const TAG_DATETIME: u8 = 7;

/// The little-endian `u32` at `p`.
pub open spec fn u32_le(b: Seq<u8>, p: int) -> int {
    b[p] as int + 256 * (b[p + 1] as int) + 65536 * (b[p + 2] as int) + 16777216 * (b[p + 3] as int)
}

/// Where the item at `pos` ends, counting a container's header only, and how
/// many items its header opens (a pair counts as two).
pub open spec fn item_span(b: Seq<u8>, pos: int) -> Option<(int, int)> {
    if pos < 0 || pos >= b.len() {
        None
    } else {
        let t = b[pos];
        if t <= TAG_TRUE {
            Some((pos + 1, 0))
        } else if t == TAG_NUMBER || t == TAG_STRING {
            if pos + 5 > b.len() || pos + 5 + u32_le(b, pos + 1) > b.len() {
                None
            } else {
                Some((pos + 5 + u32_le(b, pos + 1), 0))
            }
        } else if t == TAG_ARRAY || t == TAG_OBJECT {
            if pos + 5 > b.len() {
                None
            } else if t == TAG_ARRAY {
                Some((pos + 5, u32_le(b, pos + 1)))
            } else {
                Some((pos + 5, 2 * u32_le(b, pos + 1)))
            }
        } else if t == TAG_DATETIME {
            if pos + 9 > b.len() {
                None
            } else {
                Some((pos + 9, 0))
            }
        } else {
            None
        }
    }
}

/// Where `pending` consecutive items starting at `pos` end, descendants
/// included; `None` where the buffer cannot hold them.
pub open spec fn skip_end(b: Seq<u8>, pos: int, pending: int) -> Option<int>
    decreases b.len() - pos,
{
    if pos < 0 || pending > b.len() - pos {
        None
    } else if pending <= 0 {
        Some(pos)
    } else {
        match item_span(b, pos) {
            None => None,
            Some((next, added)) => skip_end(b, next, pending - 1 + added),
        }
    }
}

/// One open container of the iterator: its kind, how many elements or pairs
/// are still to come, and whether a key was read whose value is next.
#[derive(Clone, Copy, PartialEq, Eq, Structural, Debug)]
pub struct Frame {
    pub object: bool,
    pub remaining: usize,
    pub want_value: bool,
}

/// The scalar with tag `t` whose payload is `payload`.
pub open spec fn scalar_model(t: u8, payload: Seq<u8>) -> ScalarModel {
    if t == TAG_NULL {
        ScalarModel::Null
    } else if t == TAG_FALSE {
        ScalarModel::Bool(false)
    } else if t == TAG_TRUE {
        ScalarModel::Bool(true)
    } else if t == TAG_NUMBER {
        ScalarModel::Number(payload)
    } else {
        ScalarModel::Str(payload)
    }
}

/// Reading the item at `pos` as an element (`in_array`) or a value: the
/// token, the position after it, and the frame it opens, if any.
pub open spec fn read_item(b: Seq<u8>, pos: int, d: JsonbTraversal, in_array: bool) -> Result<
    (TokenModel, int, Option<Frame>),
    DecodeError,
> {
    if pos < 0 || pos >= b.len() {
        Err(DecodeError::MalformedEncoding)
    } else {
        let t = b[pos];
        if t == TAG_DATETIME {
            Err(DecodeError::UnimplementedScalarKind)
        } else if t > TAG_DATETIME || item_span(b, pos) is None {
            Err(DecodeError::MalformedEncoding)
        } else if t == TAG_ARRAY || t == TAG_OBJECT {
            let n = u32_le(b, pos + 1);
            let object = t == TAG_OBJECT;
            if n > b.len() - (pos + 5) {
                Err(DecodeError::MalformedEncoding)
            } else if d == JsonbTraversal::StepInto {
                let tok = if object {
                    TokenModel::BeginObject(n as nat)
                } else {
                    TokenModel::BeginArray(n as nat)
                };
                Ok((tok, pos + 5, Some(Frame { object, remaining: n as usize, want_value: false })))
            } else {
                match skip_end(b, pos + 5, item_span(b, pos).unwrap().1) {
                    None => Err(DecodeError::MalformedEncoding),
                    Some(e) => Ok((TokenModel::Skipped(object, n as nat), e, None)),
                }
            }
        } else {
            let end = item_span(b, pos).unwrap().0;
            let s = scalar_model(t, b.subrange(if t <= TAG_TRUE { end } else { pos + 5 }, end));
            let tok = if in_array {
                TokenModel::Elem(s)
            } else {
                TokenModel::Value(s)
            };
            Ok((tok, end, None))
        }
    }
}

/// The frames after a read item: the parent counts one more item, and a
/// container that was stepped into is pushed.
pub open spec fn after_item(frames: Seq<Frame>, opened: Option<Frame>) -> Seq<Frame> {
    let fs = if frames.len() == 0 {
        frames
    } else {
        let top = frames.last();
        frames.update(
            frames.len() - 1,
            Frame { object: top.object, remaining: (top.remaining - 1) as usize, want_value: false },
        )
    };
    match opened {
        Some(f) => fs.push(f),
        None => fs,
    }
}

/// One step of the iterator from cursor `pos`, open frames `frames`, and
/// whether the root item was read: the token and the state after it.
pub open spec fn step(b: Seq<u8>, pos: int, frames: Seq<Frame>, started: bool, d: JsonbTraversal) -> Result<
    (TokenModel, int, Seq<Frame>, bool),
    DecodeError,
> {
    if frames.len() == 0 {
        if started {
            if pos == b.len() {
                Ok((TokenModel::Done, pos, frames, started))
            } else {
                Err(DecodeError::MalformedEncoding)
            }
        } else {
            match read_item(b, pos, d, false) {
                Err(e) => Err(e),
                Ok((tok, p, opened)) => Ok((tok, p, after_item(frames, opened), true)),
            }
        }
    } else {
        let top = frames.last();
        if top.remaining == 0 {
            let tok = if top.object {
                TokenModel::EndObject
            } else {
                TokenModel::EndArray
            };
            Ok((tok, pos, frames.drop_last(), started))
        } else if top.object && !top.want_value {
            if pos < 0 || pos >= b.len() || b[pos] != TAG_STRING || item_span(b, pos) is None {
                Err(DecodeError::MalformedEncoding)
            } else {
                let end = item_span(b, pos).unwrap().0;
                Ok((
                    TokenModel::Key(b.subrange(pos + 5, end)),
                    end,
                    frames.update(frames.len() - 1, Frame { want_value: true, ..top }),
                    started,
                ))
            }
        } else {
            match read_item(b, pos, d, !top.object) {
                Err(e) => Err(e),
                Ok((tok, p, opened)) => Ok((tok, p, after_item(frames, opened), started)),
            }
        }
    }
}

/// A single forward pass over one encoded document.
pub struct JsonbIterator<'a> {
    pub buf: &'a [u8],
    pub pos: usize,
    pub frames: Vec<Frame>,
    pub started: bool,
}

impl<'a> JsonbIterator<'a> {
    /// The cursor lies in the buffer, a frame waits for a value only inside an
    /// object with a pair to come, and no frame is open before the root item.
    pub open spec fn wf(&self) -> bool {
        &&& self.pos <= self.buf@.len()
        &&& forall|i: int|
            0 <= i < self.frames@.len() ==> (#[trigger] self.frames@[i]).want_value ==> (
            self.frames@[i].object && self.frames@[i].remaining > 0)
        &&& !self.started ==> self.frames@.len() == 0
    }

    /// An iterator at the start of `buf`.
    pub fn new(buf: &'a [u8]) -> (r: Self)
        ensures
            r.buf@ == buf@,
            r.pos == 0,
            r.frames@ == Seq::<Frame>::empty(),
            !r.started,
            r.wf(),
    {
        JsonbIterator { buf, pos: 0, frames: Vec::new(), started: false }
    }

    /// Reads the item at the cursor as an element or a value.
    fn item(&self, d: JsonbTraversal, in_array: bool) -> (r: Result<
        (JsonbToken<'a>, usize, Option<Frame>),
        DecodeError,
    >)
        requires
            self.pos <= self.buf@.len(),
        ensures
            match read_item(self.buf@, self.pos as int, d, in_array) {
                Err(e) => r == Err::<(JsonbToken<'a>, usize, Option<Frame>), DecodeError>(e),
                Ok((t, p, o)) => r matches Ok((tok, p2, o2)) && tok@ == t && p2 == p && o2 == o
                    && p2 <= self.buf@.len() && (o matches Some(f) ==> !f.want_value),
            },
    {
        let b = self.buf;
        let pos = self.pos;
        if pos >= b.len() {
            return Err(DecodeError::MalformedEncoding);
        }
        let t = b[pos];
        if t == TAG_DATETIME {
            return Err(DecodeError::UnimplementedScalarKind);
        }
        if t > TAG_DATETIME {
            return Err(DecodeError::MalformedEncoding);
        }
        let (end, added) = match span(b, pos) {
            None => return Err(DecodeError::MalformedEncoding),
            Some(x) => x,
        };
        if t == TAG_ARRAY || t == TAG_OBJECT {
            let n = read_u32(b, pos + 1);
            let object = t == TAG_OBJECT;
            if n > b.len() - (pos + 5) {
                return Err(DecodeError::MalformedEncoding);
            }
            if d == JsonbTraversal::StepInto {
                let tok = if object {
                    JsonbToken::BeginObject(n)
                } else {
                    JsonbToken::BeginArray(n)
                };
                let r = Ok((tok, pos + 5, Some(Frame { object, remaining: n, want_value: false })));
                assert(read_item(b@, pos as int, d, in_array) == Ok::<(TokenModel, int, Option<Frame>), DecodeError>((tok@, pos + 5, Some(Frame { object, remaining: n, want_value: false }))));
                r
            } else {
                if added > (b.len() - end) as u64 {
                    assert(skip_end(b@, end as int, added as int) is None);
                    return Err(DecodeError::MalformedEncoding);
                }
                match skip_items(b, end, added as usize) {
                    None => Err(DecodeError::MalformedEncoding),
                    Some(e) => {
                        assert(read_item(b@, pos as int, d, in_array) == Ok::<(TokenModel, int, Option<Frame>), DecodeError>((TokenModel::Skipped(object, n as nat), e as int, None)));
                        Ok((JsonbToken::Skipped { object, count: n }, e, None))
                    }
                }
            }
        } else {
            let s = if t == TAG_NULL {
                JsonbScalar::Null
            } else if t == TAG_FALSE {
                JsonbScalar::Bool(false)
            } else if t == TAG_TRUE {
                JsonbScalar::Bool(true)
            } else if t == TAG_NUMBER {
                JsonbScalar::Number(JsonbNumeric { digits: &b[pos + 5..end] })
            } else {
                JsonbScalar::String(JsonbString { bytes: &b[pos + 5..end] })
            };
            proof {
                let payload = b@.subrange(if t <= TAG_TRUE { end as int } else { pos + 5 }, end as int);
                assert(s@ == scalar_model(t, payload));
            }
            let tok = if in_array {
                JsonbToken::Elem(s)
            } else {
                JsonbToken::Value(s)
            };
            assert(read_item(b@, pos as int, d, in_array) == Ok::<(TokenModel, int, Option<Frame>), DecodeError>((tok@, end as int, None)));
            Ok((tok, end, None))
        }
    }

    /// Advances by one token. `d` says whether a container met at this step
    /// is stepped into or skipped as a whole.
    pub fn next(&mut self, d: JsonbTraversal) -> (r: Result<JsonbToken<'a>, DecodeError>)
        requires
            old(self).wf(),
        ensures
            final(self).buf == old(self).buf,
            match step(old(self).buf@, old(self).pos as int, old(self).frames@, old(self).started, d) {
                Err(e) => r == Err::<JsonbToken<'a>, DecodeError>(e),
                Ok((t, p, fs, s)) => r matches Ok(tok) && tok@ == t && final(self).pos == p
                    && final(self).frames@ == fs && final(self).started == s && final(self).wf(),
            },
    {
        let b = self.buf;
        let pos = self.pos;
        let n = self.frames.len();
        if n == 0 {
            if self.started {
                if pos == b.len() {
                    return Ok(JsonbToken::Done);
                } else {
                    return Err(DecodeError::MalformedEncoding);
                }
            }
            let (tok, p, opened) = self.item(d, false)?;
            if let Some(f) = opened {
                self.frames.push(f);
            }
            self.pos = p;
            self.started = true;
            proof {
                assert(self.frames@ =~= after_item(old(self).frames@, opened));
            }
            return Ok(tok);
        }
        let top = self.frames[n - 1];
        if top.remaining == 0 {
            self.frames.pop();
            proof {
                assert(self.frames@ =~= old(self).frames@.drop_last());
            }
            if top.object {
                return Ok(JsonbToken::EndObject);
            } else {
                return Ok(JsonbToken::EndArray);
            }
        }
        if top.object && !top.want_value {
            if pos >= b.len() || b[pos] != TAG_STRING {
                return Err(DecodeError::MalformedEncoding);
            }
            let end = match span(b, pos) {
                None => return Err(DecodeError::MalformedEncoding),
                Some((e, _)) => e,
            };
            self.frames.pop();
            self.frames.push(Frame { want_value: true, ..top });
            self.pos = end;
            proof {
                assert(self.frames@ =~= old(self).frames@.update(n - 1, Frame { want_value: true, ..top }));
            }
            return Ok(JsonbToken::Key(JsonbString { bytes: &b[pos + 5..end] }));
        }
        let (tok, p, opened) = self.item(d, !top.object)?;
        self.frames.pop();
        self.frames.push(Frame { object: top.object, remaining: top.remaining - 1, want_value: false });
        if let Some(f) = opened {
            self.frames.push(f);
        }
        self.pos = p;
        proof {
            assert(self.frames@ =~= after_item(old(self).frames@, opened));
        }
        Ok(tok)
    }
}

/// Reads the little-endian `u32` at `p`.
fn read_u32(b: &[u8], p: usize) -> (r: usize)
    requires
        p + 4 <= b@.len(),
    ensures
        r as int == u32_le(b@, p as int),
{
    b[p] as usize + 256 * (b[p + 1] as usize) + 65536 * (b[p + 2] as usize) + 16777216 * (
    b[p + 3] as usize)
}

/// Where the item at `pos` ends (a container's header only) and how many
/// items it opens.
fn span(b: &[u8], pos: usize) -> (r: Option<(usize, u64)>)
    ensures
        match item_span(b@, pos as int) {
            None => r is None,
            Some((e, n)) => r == Some((e as usize, n as u64)) && pos < e <= b@.len() && 0 <= n
                <= 2 * 0xffff_ffffu64,
        },
{
    if pos >= b.len() {
        return None;
    }
    let t = b[pos];
    if t <= TAG_TRUE {
        Some((pos + 1, 0))
    } else if t == TAG_NUMBER || t == TAG_STRING {
        if b.len() - pos < 5 {
            return None;
        }
        let len = read_u32(b, pos + 1);
        if b.len() - (pos + 5) < len {
            None
        } else {
            Some((pos + 5 + len, 0))
        }
    } else if t == TAG_ARRAY || t == TAG_OBJECT {
        if b.len() - pos < 5 {
            return None;
        }
        let n = read_u32(b, pos + 1);
        if t == TAG_ARRAY {
            Some((pos + 5, n as u64))
        } else {
            Some((pos + 5, 2 * (n as u64)))
        }
    } else if t == TAG_DATETIME {
        if b.len() - pos < 9 {
            None
        } else {
            Some((pos + 9, 0))
        }
    } else {
        None
    }
}

/// Where `pending` consecutive items from `pos` end, walking their
/// descendants without emitting them.
fn skip_items(b: &[u8], pos: usize, pending: usize) -> (r: Option<usize>)
    ensures
        match skip_end(b@, pos as int, pending as int) {
            None => r is None,
            Some(e) => r matches Some(x) && x as int == e,
        },
        r matches Some(e) ==> e <= b@.len(),
{
    let mut p = pos;
    let mut k = pending;
    while k > 0
        invariant
            skip_end(b@, p as int, k as int) == skip_end(b@, pos as int, pending as int),
        decreases b@.len() - p,
    {
        if k > b.len() || b.len() - k < p {
            return None;
        }
        match span(b, p) {
            None => return None,
            Some((next, added)) => {
                let room = (b.len() - next) as u64;
                let rest = (k - 1) as u64;
                assert(skip_end(b@, p as int, k as int) == skip_end(b@, next as int, k - 1 + added));
                if added > room || rest > room - added {
                    assert(skip_end(b@, next as int, k - 1 + added) is None);
                    return None;
                }
                p = next;
                k = (rest + added) as usize;
            },
        }
    }
    if p > b.len() {
        return None;
    }
    Some(p)
}

} // verus!

verus! {

/// Counting: a container ends only when its frame has no element or pair
/// left, a `Begin` token opens a frame holding exactly the count it reports,
/// and each element, value or skipped container read inside a container
/// counts one against it while a key counts nothing. So between a `Begin`
/// and its `End`, the elements or pairs read number exactly the count.
pub proof fn lemma_token_count(b: Seq<u8>, pos: int, frames: Seq<Frame>, started: bool, d: JsonbTraversal)
    requires
        frames.len() > 0,
    ensures
        match step(b, pos, frames, started, d) {
            Ok((t, p, fs, s)) => {
                let top = frames.last();
                let k = frames.len() - 1;
                &&& (t is EndArray || t is EndObject) ==> top.remaining == 0 && fs == frames.drop_last()
                &&& t is Key ==> fs.len() == frames.len() && fs[k].remaining == top.remaining
                    && fs.subrange(0, k) == frames.subrange(0, k)
                &&& (t is Elem || t is Value || t is Skipped || t is BeginArray || t is BeginObject)
                    ==> top.remaining > 0 && fs[k].remaining == top.remaining - 1
                    && fs.subrange(0, k) == frames.subrange(0, k)
                &&& t matches TokenModel::BeginArray(n) ==> fs.len() == frames.len() + 1 && fs.last()
                    == (Frame { object: false, remaining: n as usize, want_value: false })
                &&& t matches TokenModel::BeginObject(n) ==> fs.len() == frames.len() + 1 && fs.last()
                    == (Frame { object: true, remaining: n as usize, want_value: false })
            },
            Err(_) => true,
        },
{
    let k = frames.len() - 1;
    match step(b, pos, frames, started, d) {
        Ok((t, p, fs, s)) => {
            if !(frames.last().remaining == 0) && !(frames.last().object && !frames.last().want_value) {
                assert(fs.subrange(0, k) =~= frames.subrange(0, k));
            }
            if frames.last().object && !frames.last().want_value && frames.last().remaining != 0 {
                assert(fs.subrange(0, k) =~= frames.subrange(0, k));
            }
        },
        Err(_) => {},
    }
}

/// Skipping: with `SkipOver` a step never enters a container, so none of a
/// container's interior tokens is emitted; a container met is reported once
/// as `Skipped` with its count, and the cursor moves to where the container
/// and all its descendants end, the start of its next sibling.
pub proof fn lemma_skip_over(b: Seq<u8>, pos: int, frames: Seq<Frame>, started: bool)
    ensures
        match step(b, pos, frames, started, JsonbTraversal::SkipOver) {
            Ok((t, p, fs, s)) => {
                &&& !(t is BeginArray) && !(t is BeginObject)
                &&& fs.len() <= frames.len()
                &&& t matches TokenModel::Skipped(object, n) ==> {
                    &&& 0 <= pos && pos + 5 <= b.len()
                    &&& b[pos] == if object { TAG_OBJECT } else { TAG_ARRAY }
                    &&& n == u32_le(b, pos + 1)
                    &&& p == skip_end(b, pos + 5, if object { 2 * n as int } else { n as int }).unwrap()
                }
            },
            Err(_) => true,
        },
{
}

} // verus!
