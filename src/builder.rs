//! Rebuilding an owned tree from the token stream with an explicit stack.
use crate::text::owned_text;
use crate::token::{DecodeError, JsonbScalar, JsonbString, JsonbTraversal, ScalarModel, TokenModel};
use crate::value::{keys_unique, Json, Value};
use vstd::prelude::*;
use vstd::utf8::{decode_utf8, valid_utf8};

verus! {

/// The model of a list of entries.
pub open spec fn entries_json(v: Seq<(String, Value)>) -> Seq<(Seq<char>, Json)> {
    Seq::new(v.len(), |i: int| (v[i].0@, v[i].1@))
}

/// The model of a list of values.
pub open spec fn items_json(v: Seq<Value>) -> Seq<Json> {
    Seq::new(v.len(), |i: int| v[i]@)
}

/// The value that a scalar stands for, or `None` where its text is not UTF-8.
pub open spec fn scalar_json(s: ScalarModel) -> Option<Json> {
    match s {
        ScalarModel::Null => Some(Json::Null),
        ScalarModel::Bool(b) => Some(Json::Bool(b)),
        ScalarModel::Number(d) => if valid_utf8(d) {
            Some(Json::Number(decode_utf8(d)))
        } else {
            None
        },
        ScalarModel::Str(t) => if valid_utf8(t) {
            Some(Json::Str(decode_utf8(t)))
        } else {
            None
        },
    }
}

/// Entries after setting `k` to `v`: an existing key keeps its place and
/// takes the new value; a new key goes last.
pub open spec fn put(entries: Seq<(Seq<char>, Json)>, k: Seq<char>, v: Json) -> Seq<(Seq<char>, Json)> {
    if exists|i: int| 0 <= i < entries.len() && entries[i].0 == k {
        let i = choose|i: int| 0 <= i < entries.len() && entries[i].0 == k;
        entries.update(i, (k, v))
    } else {
        entries.push((k, v))
    }
}

/// An open container of the builder: the elements so far, or the entries so
/// far with the key whose value is awaited.
pub enum BuilderFrame {
    Array(Vec<Value>),
    Object(Vec<(String, Value)>, Option<String>),
}

/// The model of a builder frame.
pub enum FrameModel {
    Array(Seq<Json>),
    Object(Seq<(Seq<char>, Json)>, Option<Seq<char>>),
}

impl View for BuilderFrame {
    type V = FrameModel;

    open spec fn view(&self) -> FrameModel {
        match self {
            BuilderFrame::Array(v) => FrameModel::Array(items_json(v@)),
            BuilderFrame::Object(v, k) => FrameModel::Object(
                entries_json(v@),
                match k {
                    Some(s) => Some(s@),
                    None => None,
                },
            ),
        }
    }
}

/// The value `v` completed: appended to an array, set at the awaited key of
/// an object, or made the root when no frame is open.
pub open spec fn attach(stack: Seq<FrameModel>, root: Option<Json>, v: Json) -> Result<
    (Seq<FrameModel>, Option<Json>),
    DecodeError,
> {
    if stack.len() == 0 {
        if root is None {
            Ok((stack, Some(v)))
        } else {
            Err(DecodeError::UnexpectedToken)
        }
    } else {
        match stack.last() {
            FrameModel::Array(items) => Ok(
                (stack.update(stack.len() - 1, FrameModel::Array(items.push(v))), root),
            ),
            FrameModel::Object(entries, Some(k)) => Ok(
                (stack.update(stack.len() - 1, FrameModel::Object(put(entries, k, v), None)), root),
            ),
            FrameModel::Object(_, None) => Err(DecodeError::UnexpectedToken),
        }
    }
}

/// What the builder does with a token, from its stack and root to the new
/// ones. A skipped container cannot be rebuilt and is refused.
pub open spec fn feed(stack: Seq<FrameModel>, root: Option<Json>, t: TokenModel) -> Result<
    (Seq<FrameModel>, Option<Json>),
    DecodeError,
> {
    match t {
        TokenModel::BeginArray(_) => if stack.len() == 0 && root is Some {
            Err(DecodeError::UnexpectedToken)
        } else {
            Ok((stack.push(FrameModel::Array(Seq::empty())), root))
        },
        TokenModel::BeginObject(_) => if stack.len() == 0 && root is Some {
            Err(DecodeError::UnexpectedToken)
        } else {
            Ok((stack.push(FrameModel::Object(Seq::empty(), None)), root))
        },
        TokenModel::EndArray => if stack.len() > 0 && stack.last() is Array {
            attach(stack.drop_last(), root, Json::Array(stack.last()->Array_0))
        } else {
            Err(DecodeError::UnexpectedToken)
        },
        TokenModel::EndObject => if stack.len() > 0 && stack.last() matches FrameModel::Object(_, None) {
            attach(stack.drop_last(), root, Json::Object(stack.last()->Object_0))
        } else {
            Err(DecodeError::UnexpectedToken)
        },
        TokenModel::Key(k) => if stack.len() > 0 && stack.last() matches FrameModel::Object(_, None) {
            if valid_utf8(k) {
                Ok((stack.update(stack.len() - 1, FrameModel::Object(stack.last()->Object_0, Some(decode_utf8(k)))), root))
            } else {
                Err(DecodeError::InvalidTextEncoding)
            }
        } else {
            Err(DecodeError::UnexpectedToken)
        },
        TokenModel::Value(s) => if (stack.len() == 0 && root is None) || (stack.len() > 0
            && stack.last() matches FrameModel::Object(_, Some(_))) {
            match scalar_json(s) {
                None => Err(DecodeError::InvalidTextEncoding),
                Some(v) => attach(stack, root, v),
            }
        } else {
            Err(DecodeError::UnexpectedToken)
        },
        TokenModel::Elem(s) => if stack.len() > 0 && stack.last() is Array {
            match scalar_json(s) {
                None => Err(DecodeError::InvalidTextEncoding),
                Some(v) => attach(stack, root, v),
            }
        } else {
            Err(DecodeError::UnexpectedToken)
        },
        TokenModel::Skipped(_, _) => Err(DecodeError::UnexpectedToken),
        TokenModel::Done => Err(DecodeError::UnexpectedToken),
    }
}

impl<'a> JsonbScalar<'a> {
    /// The owned value of this scalar; text that is not UTF-8 fails.
    pub fn to_value(&self) -> (r: Result<Value, DecodeError>)
        ensures
            match scalar_json(self@) {
                None => r == Err::<Value, DecodeError>(DecodeError::InvalidTextEncoding),
                Some(j) => r matches Ok(v) && v@ == j,
            },
    {
        match self {
            JsonbScalar::Null => Ok(Value::Null),
            JsonbScalar::Bool(b) => Ok(Value::Bool(*b)),
            JsonbScalar::Number(n) => match owned_text(n.digits) {
                None => Err(DecodeError::InvalidTextEncoding),
                Some(s) => Ok(Value::Number(s)),
            },
            JsonbScalar::String(t) => match owned_text(t.bytes) {
                None => Err(DecodeError::InvalidTextEncoding),
                Some(s) => Ok(Value::String(s)),
            },
        }
    }
}

/// Sets `k` to `v` among `entries`, in place of an equal key or last.
fn put_entry(entries: &mut Vec<(String, Value)>, k: String, v: Value)
    requires
        keys_unique(entries_json(old(entries)@)),
    ensures
        entries_json(final(entries)@) == put(entries_json(old(entries)@), k@, v@),
        keys_unique(entries_json(final(entries)@)),
{
    let ghost m = entries_json(entries@);
    let mut i: usize = 0;
    while i < entries.len()
        invariant
            m == entries_json(entries@),
            keys_unique(m),
            entries@ == old(entries)@,
            i <= entries@.len(),
            forall|j: int| 0 <= j < i ==> m[j].0 != k@,
        decreases entries@.len() - i,
    {
        if entries[i].0 == k {
            proof {
                assert(m[i as int].0 == k@);
                let c = choose|j: int| 0 <= j < m.len() && m[j].0 == k@;
                assert(c == i) by {
                    if c < i {
                        assert(m[c].0 != m[i as int].0);
                    } else if c > i {
                        assert(m[i as int].0 != m[c].0);
                    }
                }
            }
            let _ = entries.remove(i);
            entries.insert(i, (k, v));
            proof {
                let n = entries_json(entries@);
                assert(n =~= m.update(i as int, (k@, v@)));
                assert forall|a: int, b: int| 0 <= a < b < n.len() implies n[a].0 != n[b].0 by {
                    assert(n[a].0 == m[a].0 && n[b].0 == m[b].0);
                    assert(m[a].0 != m[b].0);
                }
            }
            return;
        }
        i = i + 1;
    }
    entries.push((k, v));
    proof {
        let n = entries_json(entries@);
        assert(n =~= m.push((k@, v@)));
        assert forall|a: int, b: int| 0 <= a < b < n.len() implies n[a].0 != n[b].0 by {
            if b < m.len() {
                assert(n[a].0 == m[a].0 && n[b].0 == m[b].0);
                assert(m[a].0 != m[b].0);
            }
        }
    }
}

} // verus!

verus! {

/// Rebuilds one owned [`Value`] from a token stream. Nothing is recursive:
/// open containers wait on an explicit stack.
pub struct TreeBuilder {
    pub stack: Vec<BuilderFrame>,
    pub root: Option<Value>,
}

/// The model of a stack of builder frames.
pub open spec fn frames_model(s: Seq<BuilderFrame>) -> Seq<FrameModel> {
    Seq::new(s.len(), |i: int| s[i]@)
}

/// The model of an optional value.
pub open spec fn opt_json(v: Option<Value>) -> Option<Json> {
    match v {
        Some(x) => Some(x@),
        None => None,
    }
}

/// Every open object frame has unique keys.
pub open spec fn frames_wf(s: Seq<FrameModel>) -> bool {
    forall|i: int| 0 <= i < s.len() ==> (#[trigger] s[i] matches FrameModel::Object(e, _) ==> keys_unique(e))
}

impl TreeBuilder {
    pub open spec fn frames(&self) -> Seq<FrameModel> {
        frames_model(self.stack@)
    }

    pub open spec fn root_json(&self) -> Option<Json> {
        opt_json(self.root)
    }

    pub open spec fn wf(&self) -> bool {
        frames_wf(self.frames())
    }

    /// `post` is what `feed` makes of `pre` and `t`, and `r` says so: on
    /// success the builder asks to step into whatever comes next.
    pub open spec fn fed(pre: &Self, post: &Self, t: TokenModel, r: Result<JsonbTraversal, DecodeError>) -> bool {
        match feed(pre.frames(), pre.root_json(), t) {
            Err(e) => r == Err::<JsonbTraversal, DecodeError>(e),
            Ok((f, root)) => r == Ok::<JsonbTraversal, DecodeError>(JsonbTraversal::StepInto)
                && post.frames() == f && post.root_json() == root && post.wf(),
        }
    }

    /// A builder with no frame open and no value built.
    pub fn new() -> (r: Self)
        ensures
            r.frames() == Seq::<FrameModel>::empty(),
            r.root_json() is None,
            r.wf(),
    {
        let r = TreeBuilder { stack: Vec::new(), root: None };
        assert(r.frames() =~= Seq::<FrameModel>::empty());
        r
    }

    /// Places a completed value as `attach` says.
    fn attach_value(&mut self, v: Value) -> (r: Result<(), DecodeError>)
        requires
            old(self).wf(),
        ensures
            match attach(old(self).frames(), old(self).root_json(), v@) {
                Err(e) => r == Err::<(), DecodeError>(e),
                Ok((f, root)) => r is Ok && final(self).frames() == f && final(self).root_json()
                    == root && final(self).wf(),
            },
    {
        let ghost pre = self.frames();
        let n = self.stack.len();
        if n == 0 {
            if self.root.is_some() {
                return Err(DecodeError::UnexpectedToken);
            }
            self.root = Some(v);
            return Ok(());
        }
        let top = self.stack.pop().unwrap();
        assert(frames_model(self.stack@) =~= pre.drop_last());
        match top {
            BuilderFrame::Array(mut items) => {
                let ghost old_items = items@;
                items.push(v);
                assert(items_json(items@) =~= items_json(old_items).push(v@));
                self.stack.push(BuilderFrame::Array(items));
            },
            BuilderFrame::Object(mut entries, key) => {
                match key {
                    None => {
                        self.stack.push(BuilderFrame::Object(entries, None));
                        assert(self.frames() =~= pre);
                        return Err(DecodeError::UnexpectedToken);
                    },
                    Some(k) => {
                        assert(pre[n - 1] == pre.last());
                        put_entry(&mut entries, k, v);
                        self.stack.push(BuilderFrame::Object(entries, None));
                    },
                }
            },
        }
        proof {
            let f = attach(pre, old(self).root_json(), v@).unwrap().0;
            assert(self.frames() =~= f);
            assert forall|i: int| 0 <= i < f.len() implies (#[trigger] f[i] matches FrameModel::Object(e, _) ==> keys_unique(e)) by {
                if i < f.len() - 1 {
                    assert(f[i] == pre[i]);
                }
            }
        }
        Ok(())
    }

    /// Opens an array of `count` elements.
    pub fn begin_array(&mut self, count: usize) -> (r: Result<JsonbTraversal, DecodeError>)
        requires
            old(self).wf(),
        ensures
            Self::fed(old(self), final(self), TokenModel::BeginArray(count as nat), r),
    {
        if self.stack.len() == 0 && self.root.is_some() {
            return Err(DecodeError::UnexpectedToken);
        }
        let ghost pre = self.frames();
        self.stack.push(BuilderFrame::Array(Vec::with_capacity(count)));
        proof {
            assert(items_json(Seq::<Value>::empty()) =~= Seq::<Json>::empty());
            assert(self.frames() =~= pre.push(FrameModel::Array(Seq::empty())));
        }
        Ok(JsonbTraversal::StepInto)
    }

    /// Opens an object of `count` pairs.
    pub fn begin_object(&mut self, count: usize) -> (r: Result<JsonbTraversal, DecodeError>)
        requires
            old(self).wf(),
        ensures
            Self::fed(old(self), final(self), TokenModel::BeginObject(count as nat), r),
    {
        if self.stack.len() == 0 && self.root.is_some() {
            return Err(DecodeError::UnexpectedToken);
        }
        let ghost pre = self.frames();
        self.stack.push(BuilderFrame::Object(Vec::with_capacity(count), None));
        proof {
            assert(entries_json(Seq::<(String, Value)>::empty()) =~= Seq::<(Seq<char>, Json)>::empty());
            assert(self.frames() =~= pre.push(FrameModel::Object(Seq::empty(), None)));
        }
        Ok(JsonbTraversal::StepInto)
    }

    /// Closes the innermost array and places it.
    pub fn end_array(&mut self) -> (r: Result<JsonbTraversal, DecodeError>)
        requires
            old(self).wf(),
        ensures
            Self::fed(old(self), final(self), TokenModel::EndArray, r),
    {
        let ghost pre = self.frames();
        match self.stack.pop() {
            None => Err(DecodeError::UnexpectedToken),
            Some(BuilderFrame::Array(items)) => {
                assert(self.frames() =~= pre.drop_last());
                let v = Value::Array(items);
                assert(v@ == Json::Array(pre.last()->Array_0)) by {
                    assert(v@->Array_0 =~= pre.last()->Array_0);
                }
                self.attach_value(v)?;
                Ok(JsonbTraversal::StepInto)
            },
            Some(f) => {
                self.stack.push(f);
                assert(self.frames() =~= pre);
                Err(DecodeError::UnexpectedToken)
            },
        }
    }

    /// Closes the innermost object and places it.
    pub fn end_object(&mut self) -> (r: Result<JsonbTraversal, DecodeError>)
        requires
            old(self).wf(),
        ensures
            Self::fed(old(self), final(self), TokenModel::EndObject, r),
    {
        let ghost pre = self.frames();
        match self.stack.pop() {
            None => Err(DecodeError::UnexpectedToken),
            Some(BuilderFrame::Object(entries, None)) => {
                assert(self.frames() =~= pre.drop_last());
                let v = Value::Object(entries);
                assert(v@ == Json::Object(pre.last()->Object_0)) by {
                    assert(v@->Object_0 =~= pre.last()->Object_0);
                }
                self.attach_value(v)?;
                Ok(JsonbTraversal::StepInto)
            },
            Some(f) => {
                self.stack.push(f);
                assert(self.frames() =~= pre);
                Err(DecodeError::UnexpectedToken)
            },
        }
    }

    /// Takes the key of the next pair of the innermost object.
    pub fn key(&mut self, k: JsonbString) -> (r: Result<JsonbTraversal, DecodeError>)
        requires
            old(self).wf(),
        ensures
            Self::fed(old(self), final(self), TokenModel::Key(k.bytes@), r),
    {
        let ghost pre = self.frames();
        match self.stack.pop() {
            None => Err(DecodeError::UnexpectedToken),
            Some(BuilderFrame::Object(entries, None)) => {
                match owned_text(k.bytes) {
                    None => {
                        self.stack.push(BuilderFrame::Object(entries, None));
                        assert(self.frames() =~= pre);
                        Err(DecodeError::InvalidTextEncoding)
                    },
                    Some(s) => {
                        self.stack.push(BuilderFrame::Object(entries, Some(s)));
                        proof {
                            let f = pre.update(pre.len() - 1, FrameModel::Object(pre.last()->Object_0, Some(decode_utf8(k.bytes@))));
                            assert(self.frames() =~= f);
                            assert forall|i: int| 0 <= i < f.len() implies (#[trigger] f[i] matches FrameModel::Object(e, _) ==> keys_unique(e)) by {
                                assert(pre[i] matches FrameModel::Object(e, _) ==> keys_unique(e));
                            }
                        }
                        Ok(JsonbTraversal::StepInto)
                    },
                }
            },
            Some(f) => {
                self.stack.push(f);
                assert(self.frames() =~= pre);
                Err(DecodeError::UnexpectedToken)
            },
        }
    }

    /// Takes the value of the pending key, or the whole document where it is
    /// a bare scalar.
    pub fn value(&mut self, s: JsonbScalar) -> (r: Result<JsonbTraversal, DecodeError>)
        requires
            old(self).wf(),
        ensures
            Self::fed(old(self), final(self), TokenModel::Value(s@), r),
    {
        let n = self.stack.len();
        let placed = if n == 0 {
            self.root.is_none()
        } else {
            match &self.stack[n - 1] {
                BuilderFrame::Object(_, Some(_)) => true,
                _ => false,
            }
        };
        if !placed {
            return Err(DecodeError::UnexpectedToken);
        }
        let v = s.to_value()?;
        self.attach_value(v)?;
        Ok(JsonbTraversal::StepInto)
    }

    /// Appends an element to the innermost array.
    pub fn elem(&mut self, s: JsonbScalar) -> (r: Result<JsonbTraversal, DecodeError>)
        requires
            old(self).wf(),
        ensures
            Self::fed(old(self), final(self), TokenModel::Elem(s@), r),
    {
        let n = self.stack.len();
        let placed = if n == 0 {
            false
        } else {
            match &self.stack[n - 1] {
                BuilderFrame::Array(_) => true,
                _ => false,
            }
        };
        if !placed {
            return Err(DecodeError::UnexpectedToken);
        }
        let v = s.to_value()?;
        self.attach_value(v)?;
        Ok(JsonbTraversal::StepInto)
    }

    /// The built value, once exactly one is complete and no frame is open.
    pub fn done(self) -> (r: Result<Value, DecodeError>)
        ensures
            match (self.frames().len() == 0, self.root_json()) {
                (true, Some(j)) => r matches Ok(v) && v@ == j,
                _ => r == Err::<Value, DecodeError>(DecodeError::IncompleteDocument),
            },
    {
        if self.stack.len() != 0 {
            return Err(DecodeError::IncompleteDocument);
        }
        match self.root {
            Some(v) => Ok(v),
            None => Err(DecodeError::IncompleteDocument),
        }
    }
}

} // verus!
