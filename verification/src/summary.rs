//! Version edits and the manifest (summary): the durable, ordered log of
//! structural changes per partition. Replaying the manifest from an empty
//! state reconstructs each partition's current file set and sequence
//! watermark, and replay may be checkpointed at any point without
//! changing the outcome.

use vstd::prelude::*;

use crate::types::{copy_vec, TimeRange};

verus! {

/// Metadata of one immutable file as recorded in the manifest.
#[derive(Clone, Copy, PartialEq, Eq, Structural, Debug)]
pub struct FileMeta {
    pub file_id: u64,
    pub time_range: TimeRange,
    pub schema_version: u64,
}

/// An atomic delta to one partition's version: files added, files
/// removed, and the new maximum applied sequence number. An edit is never
/// partially applied.
pub struct VersionEdit {
    pub vnode_id: u32,
    pub adds: Vec<FileMeta>,
    pub removes: Vec<u64>,
    pub max_seq: u64,
}

/// Model of a version edit.
#[verifier::ext_equal]
pub struct VersionEditV {
    pub vnode_id: u32,
    pub adds: Seq<FileMeta>,
    pub removes: Seq<u64>,
    pub max_seq: u64,
}

impl VersionEdit {
    /// Model of the edit.
    pub open spec fn view_edit(self) -> VersionEditV {
        VersionEditV {
            vnode_id: self.vnode_id,
            adds: self.adds@,
            removes: self.removes@,
            max_seq: self.max_seq,
        }
    }

    /// A copy of the edit, equal at the model level.
    pub fn duplicate(&self) -> (r: VersionEdit)
        ensures
            r.view_edit() == self.view_edit(),
    {
        VersionEdit {
            vnode_id: self.vnode_id,
            adds: copy_vec(&self.adds),
            removes: copy_vec(&self.removes),
            max_seq: self.max_seq,
        }
    }
}

/// Models of a sequence of edits, elementwise.
pub open spec fn view_edits(es: Seq<VersionEdit>) -> Seq<VersionEditV> {
    Seq::new(es.len(), |i: int| es[i].view_edit())
}

/// The manifest-level state of one partition: its registered files and
/// its last applied sequence number.
#[verifier::ext_equal]
pub struct VersionStateV {
    pub files: Seq<FileMeta>,
    pub last_seq: u64,
}

/// The state of a partition that has never committed an edit.
pub open spec fn empty_state() -> VersionStateV {
    VersionStateV { files: Seq::empty(), last_seq: 0 }
}

/// Applying one edit: files named in `removes` leave, added files are
/// appended in order, and the watermark advances to `max_seq` if larger.
pub open spec fn spec_apply_edit(s: VersionStateV, e: VersionEditV) -> VersionStateV {
    VersionStateV {
        files: s.files.filter(|f: FileMeta| !e.removes.contains(f.file_id)) + e.adds,
        last_seq: if e.max_seq > s.last_seq {
            e.max_seq
        } else {
            s.last_seq
        },
    }
}

/// Folding a sequence of edits over a starting state, in order.
pub open spec fn spec_replay(s: VersionStateV, edits: Seq<VersionEditV>) -> VersionStateV
    decreases edits.len(),
{
    if edits.len() == 0 {
        s
    } else {
        spec_replay(spec_apply_edit(s, edits[0]), edits.drop_first())
    }
}

/// Manifest replay is associative: applying edits E1..En in order from a
/// state equals checkpointing after E1..Ek (any split point) and
/// replaying Ek+1..En from that checkpoint.
pub proof fn lemma_replay_split(s: VersionStateV, e1: Seq<VersionEditV>, e2: Seq<VersionEditV>)
    ensures
        spec_replay(s, e1 + e2) == spec_replay(spec_replay(s, e1), e2),
    decreases e1.len(),
{
    if e1.len() == 0 {
        assert(e1 + e2 =~= e2);
    } else {
        assert((e1 + e2)[0] == e1[0]);
        assert((e1 + e2).drop_first() =~= e1.drop_first() + e2);
        lemma_replay_split(spec_apply_edit(s, e1[0]), e1.drop_first(), e2);
    }
}


/// Applying one more edit after a replay equals replaying the extended
/// log.
pub proof fn lemma_replay_push(s: VersionStateV, es: Seq<VersionEditV>, e: VersionEditV)
    ensures
        spec_replay(s, es.push(e)) == spec_apply_edit(spec_replay(s, es), e),
{
    reveal_with_fuel(spec_replay, 3);
    assert(es.push(e) =~= es + seq![e]);
    lemma_replay_split(s, es, seq![e]);
    assert(seq![e][0] == e);
    assert(seq![e].drop_first() =~= Seq::<VersionEditV>::empty());
}

/// The exec-side state of one partition as reconstructed from the
/// manifest.
pub struct VersionState {
    pub files: Vec<FileMeta>,
    pub last_seq: u64,
}

impl VersionState {
    /// Model of the state.
    pub open spec fn view_state(self) -> VersionStateV {
        VersionStateV { files: self.files@, last_seq: self.last_seq }
    }

    /// The state of a partition with no committed edit.
    pub fn new() -> (r: VersionState)
        ensures
            r.view_state() == empty_state(),
    {
        let s = VersionState { files: Vec::new(), last_seq: 0 };
        proof {
            assert(s.view_state() =~= empty_state());
        }
        s
    }

    /// Applies one edit atomically.
    pub fn apply_edit(&mut self, e: &VersionEdit)
        ensures
            final(self).view_state() == spec_apply_edit(old(self).view_state(), e.view_edit()),
    {
        proof {
            reveal(Seq::filter);
        }
        let ghost pred = |f: FileMeta| !e.removes@.contains(f.file_id);
        let mut kept: Vec<FileMeta> = Vec::new();
        let mut i: usize = 0;
        proof {
            assert(self.files@.subrange(0, 0) =~= Seq::<FileMeta>::empty());
            assert(kept@ =~= self.files@.subrange(0, 0).filter(pred));
        }
        while i < self.files.len()
            invariant
                0 <= i <= self.files@.len(),
                pred == (|f: FileMeta| !e.removes@.contains(f.file_id)),
                kept@ == self.files@.subrange(0, i as int).filter(pred),
            decreases self.files@.len() - i,
        {
            let ghost pre = self.files@.subrange(0, i as int);
            let ghost cur = self.files@[i as int];
            proof {
                reveal(Seq::filter);
                assert(self.files@.subrange(0, i + 1) =~= pre.push(cur));
                assert(pre.push(cur).drop_last() =~= pre);
            }
            let f = self.files[i];
            if !contains_id(&e.removes, f.file_id) {
                kept.push(f);
            }
            i += 1;
        }
        proof {
            assert(self.files@.subrange(0, self.files@.len() as int) =~= self.files@);
        }
        let mut adds = copy_vec(&e.adds);
        kept.append(&mut adds);
        self.files = kept;
        if e.max_seq > self.last_seq {
            self.last_seq = e.max_seq;
        }
        proof {
            assert(self.view_state() =~= spec_apply_edit(old(self).view_state(), e.view_edit()));
        }
    }
}

/// Whether a file identifier occurs in a list.
pub fn contains_id(ids: &Vec<u64>, id: u64) -> (r: bool)
    ensures
        r == ids@.contains(id),
{
    let mut i: usize = 0;
    while i < ids.len()
        invariant
            0 <= i <= ids@.len(),
            forall|j: int| 0 <= j < i ==> ids@[j] != id,
        decreases ids@.len() - i,
    {
        if ids[i] == id {
            return true;
        }
        i += 1;
    }
    false
}

} // verus!
