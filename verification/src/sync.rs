//! The sync engine: reconcile a client's note batch against the server's
//! resident notes with last-write-wins conflict resolution, and compute the
//! delta the client still needs.
//!
//! The round's effect on the store is the fold [`merge_map`]; what the client
//! gets back is the step-one conflict list [`step1_resp`] followed by the
//! incremental feed past its watermark, minus everything step one already
//! handled.

use vstd::prelude::*;

use crate::models::{Note, NoteV, SyncRequest, SyncResponse};
use crate::search::{get_notes_since, in_result, sorted_asc};
use crate::store::{distinct_note_ids, get_note_by_id, upsert_model, upsert_note, Store};

verus! {

/// The server map after upserting each client note in batch order.
pub open spec fn merge_map(m: Map<Seq<char>, NoteV>, cs: Seq<NoteV>) -> Map<Seq<char>, NoteV>
    decreases cs.len(),
{
    if cs.len() == 0 {
        m
    } else {
        upsert_model(merge_map(m, cs.drop_last()), cs.last())
    }
}

/// The server copies queued for the client during the write loop: one for
/// each client note whose resident counterpart is strictly newer at the
/// moment it is processed, each id queued at most once.
pub open spec fn step1_resp(m: Map<Seq<char>, NoteV>, cs: Seq<NoteV>) -> Seq<NoteV>
    decreases cs.len(),
{
    if cs.len() == 0 {
        Seq::empty()
    } else {
        let prev_m = merge_map(m, cs.drop_last());
        let prev_r = step1_resp(m, cs.drop_last());
        let n = cs.last();
        if prev_m.contains_key(n.id) && prev_m[n.id].updated_at > n.updated_at && !in_result(
            prev_r,
            n.id,
        ) {
            prev_r.push(prev_m[n.id])
        } else {
            prev_r
        }
    }
}

/// The batch contains a note with this id.
pub open spec fn client_has(cs: Seq<NoteV>, id: Seq<char>) -> bool {
    exists|i: int| 0 <= i < cs.len() && cs[i].id == id
}

/// What the sync response must look like, given the resident map `m0` before
/// the round, the client batch `cs` and its watermark: the step-one conflict
/// list, followed by exactly the notes of the merged store that are newer
/// than the watermark and were not handled in step one, oldest touch first;
/// the union is deduplicated, no id twice.
pub open spec fn merge_response_ok(
    m0: Map<Seq<char>, NoteV>,
    cs: Seq<NoteV>,
    last_sync: i64,
    rs: Seq<NoteV>,
) -> bool {
    let s1 = step1_resp(m0, cs);
    let m1 = merge_map(m0, cs);
    let extra = rs.skip(s1.len() as int);
    &&& s1.len() <= rs.len()
    &&& rs.take(s1.len() as int) == s1
    &&& distinct_note_ids(rs)
    &&& sorted_asc(extra)
    &&& distinct_note_ids(extra)
    &&& forall|a: int| 0 <= a < extra.len() ==> {
        &&& m1.contains_key((#[trigger] extra[a]).id)
        &&& m1[extra[a].id] == extra[a]
        &&& extra[a].updated_at > last_sync
        &&& !client_has(cs, extra[a].id)
        &&& !in_result(s1, extra[a].id)
    }
    &&& forall|id: Seq<char>|
        m1.contains_key(id) && (#[trigger] m1[id]).updated_at > last_sync && !client_has(cs, id)
            && !in_result(s1, id) ==> in_result(extra, id)
}

/// The batch's id list contains this string.
fn string_in(ids: &Vec<String>, s: &String) -> (r: bool)
    ensures
        r == exists|k: int| 0 <= k < ids.deep_view().len() && ids.deep_view()[k] == s@,
{
    let mut k: usize = 0;
    while k < ids.len()
        invariant
            k <= ids.len(),
            forall|j: int| 0 <= j < k ==> ids.deep_view()[j] != s@,
        decreases ids.len() - k,
    {
        if ids[k] == *s {
            assert(ids.deep_view()[k as int] == s@);
            return true;
        }
        k = k + 1;
    }
    false
}

/// Whether one of the first `upto` queued notes carries this id.
#[verifier::loop_isolation(false)]
fn id_in_prefix(notes: &Vec<Note>, upto: usize, id: &String) -> (r: bool)
    requires
        upto <= notes.deep_view().len(),
    ensures
        r == in_result(notes.deep_view().take(upto as int), id@),
{
    let mut k: usize = 0;
    while k < upto
        invariant
            k <= upto,
            forall|j: int| 0 <= j < k ==> (#[trigger] notes.deep_view()[j]).id != id@,
        decreases upto - k,
    {
        if notes[k].id == *id {
            proof {
                assert(notes.deep_view()[k as int].id == id@);
                assert(notes.deep_view().take(upto as int)[k as int]
                    == notes.deep_view()[k as int]);
            }
            return true;
        }
        k = k + 1;
    }
    proof {
        if in_result(notes.deep_view().take(upto as int), id@) {
            let a = choose|a: int|
                0 <= a < upto && notes.deep_view().take(upto as int)[a].id == id@;
            assert(notes.deep_view().take(upto as int)[a] == notes.deep_view()[a]);
            assert(false);
        }
    }
    false
}

/// Merge the client's batch into the store and return the notes the client
/// is missing.
///
/// Each client note is upserted under last-write-wins; where the resident
/// copy is strictly newer it is queued for the client instead, each id at
/// most once. The response then carries, after those, every resident note
/// newer than the client's watermark whose id step one did not already
/// handle, so the whole response is deduplicated by id.
#[verifier::loop_isolation(false)]
pub fn merge_notes(store: &mut Store, client_notes: Vec<Note>, client_last_sync: i64) -> (r: Vec<
    Note,
>)
    requires
        old(store).wf(),
    ensures
        final(store).wf(),
        final(store).state_seq() == old(store).state_seq(),
        final(store).version_model() == old(store).version_model(),
        final(store).notes_model() == merge_map(
            old(store).notes_model(),
            client_notes.deep_view(),
        ),
        merge_response_ok(
            old(store).notes_model(),
            client_notes.deep_view(),
            client_last_sync,
            r.deep_view(),
        ),
{
    let ghost m0 = store.notes_model();
    let ghost cs = client_notes.deep_view();
    let mut notes_to_send: Vec<Note> = Vec::new();
    let mut client_note_ids: Vec<String> = Vec::new();
    proof {
        assert(cs.take(0) =~= Seq::<NoteV>::empty());
        assert(notes_to_send.deep_view() =~= Seq::<NoteV>::empty());
        assert(client_note_ids.deep_view() =~= Seq::<Seq<char>>::empty());
    }
    let mut i: usize = 0;
    while i < client_notes.len()
        invariant
            i <= cs.len(),
            store.wf(),
            store.state_seq() == old(store).state_seq(),
            store.version_model() == old(store).version_model(),
            store.notes_model() == merge_map(m0, cs.take(i as int)),
            notes_to_send.deep_view() == step1_resp(m0, cs.take(i as int)),
            distinct_note_ids(notes_to_send.deep_view()),
            client_note_ids.deep_view().len() == i,
            forall|k: int| 0 <= k < i ==> client_note_ids.deep_view()[k] == cs[k].id,
        decreases client_notes.len() - i,
    {
        let client_note = &client_notes[i];
        proof {
            assert(client_note@ == cs[i as int]);
            assert(cs.take(i + 1).drop_last() =~= cs.take(i as int));
            assert(cs.take(i + 1).last() == cs[i as int]);
        }
        let ghost ids_prev = client_note_ids.deep_view();
        client_note_ids.push(client_note.id.clone());
        proof {
            assert(client_note_ids.deep_view() =~= ids_prev.push(cs[i as int].id));
        }
        let server_note = get_note_by_id(store, client_note.id.as_str());
        match server_note {
            None => {
                upsert_note(store, client_note);
            }
            Some(server_note) => {
                if client_note.updated_at > server_note.updated_at {
                    upsert_note(store, client_note);
                } else if server_note.updated_at > client_note.updated_at {
                    let queued = notes_to_send.len();
                    if !id_in_prefix(&notes_to_send, queued, &client_note.id) {
                        let ghost resp_prev = notes_to_send.deep_view();
                        proof {
                            assert(resp_prev.take(queued as int) =~= resp_prev);
                        }
                        notes_to_send.push(server_note);
                        proof {
                            let v = merge_map(m0, cs.take(i as int))[cs[i as int].id];
                            assert(notes_to_send.deep_view() =~= resp_prev.push(v));
                            crate::store::lemma_notes_map(store.notes_seq());
                            let ns = store.notes_seq();
                            let j = choose|j: int|
                                0 <= j < ns.len() && (#[trigger] ns[j]).id == cs[i as int].id;
                            assert(store.notes_model()[ns[j].id] == ns[j]);
                            assert(v.id == cs[i as int].id);
                            assert forall|a: int, b: int|
                                0 <= a < b < resp_prev.push(v).len() implies resp_prev.push(
                                v,
                            )[a].id != resp_prev.push(v)[b].id by {
                                if b == resp_prev.len() {
                                    if resp_prev[a].id == v.id {
                                        assert(in_result(resp_prev, v.id));
                                    }
                                }
                            }
                        }
                    } else {
                        proof {
                            let resp_prev = notes_to_send.deep_view();
                            assert(resp_prev.take(queued as int) =~= resp_prev);
                            assert(in_result(resp_prev, cs[i as int].id));
                        }
                    }
                }
            }
        }
        proof {
            assert(store.notes_model() == upsert_model(
                merge_map(m0, cs.take(i as int)),
                cs[i as int],
            ));
            assert(merge_map(m0, cs.take(i + 1)) == upsert_model(
                merge_map(m0, cs.take(i as int)),
                cs[i as int],
            ));
        }
        i = i + 1;
    }
    proof {
        assert(cs.take(cs.len() as int) =~= cs);
    }
    let ghost s1 = step1_resp(m0, cs);
    let ghost m1 = merge_map(m0, cs);
    let s1_len = notes_to_send.len();
    let server_new_notes = get_notes_since(store, client_last_sync);
    let ghost sl = server_new_notes.deep_view();
    let mut j: usize = 0;
    while j < server_new_notes.len()
        invariant
            j <= sl.len(),
            s1_len == s1.len(),
            notes_to_send.deep_view().len() >= s1.len(),
            notes_to_send.deep_view().take(s1_len as int) == s1,
            sorted_asc(notes_to_send.deep_view().skip(s1_len as int)),
            distinct_note_ids(notes_to_send.deep_view().skip(s1_len as int)),
            forall|a: int|
                0 <= a < notes_to_send.deep_view().skip(s1_len as int).len() ==> exists|k: int|
                    0 <= k < j && (#[trigger] notes_to_send.deep_view().skip(s1_len as int)[a])
                        == sl[k],
            forall|a: int| 0 <= a < notes_to_send.deep_view().skip(s1_len as int).len() ==> {
                &&& m1.contains_key(
                    (#[trigger] notes_to_send.deep_view().skip(s1_len as int)[a]).id,
                )
                &&& m1[notes_to_send.deep_view().skip(s1_len as int)[a].id]
                    == notes_to_send.deep_view().skip(s1_len as int)[a]
                &&& notes_to_send.deep_view().skip(s1_len as int)[a].updated_at > client_last_sync
                &&& !client_has(cs, notes_to_send.deep_view().skip(s1_len as int)[a].id)
                &&& !in_result(s1, notes_to_send.deep_view().skip(s1_len as int)[a].id)
            },
            forall|k: int|
                0 <= k < j && !client_has(cs, (#[trigger] sl[k]).id) && !in_result(s1, sl[k].id)
                    ==> in_result(notes_to_send.deep_view().skip(s1_len as int), sl[k].id),
        decreases server_new_notes.len() - j,
    {
        let note = &server_new_notes[j];
        proof {
            assert(note@ == sl[j as int]);
        }
        let in_client = string_in(&client_note_ids, &note.id);
        proof {
            assert(client_note_ids.deep_view().len() == cs.len());
            if in_client {
                let k = choose|k: int|
                    0 <= k < cs.len() && client_note_ids.deep_view()[k] == note@.id;
                assert(cs[k].id == note@.id);
            }
            if client_has(cs, note@.id) {
                let k = choose|k: int| 0 <= k < cs.len() && (#[trigger] cs[k]).id == note@.id;
                assert(client_note_ids.deep_view()[k] == note@.id);
            }
        }
        if !in_client && !id_in_prefix(&notes_to_send, s1_len, &note.id) {
            let ghost before = notes_to_send.deep_view();
            let ghost extra_before = before.skip(s1_len as int);
            notes_to_send.push(note.duplicate());
            proof {
                let t = notes_to_send.deep_view();
                let extra = t.skip(s1_len as int);
                assert(t =~= before.push(sl[j as int]));
                assert(t.take(s1_len as int) =~= s1);
                assert(extra =~= extra_before.push(sl[j as int]));
                assert forall|a: int, b: int|
                    0 <= a < b < extra.len() implies extra[a].updated_at <= extra[b].updated_at
                        && extra[a].id != extra[b].id by {
                    if b == extra.len() - 1 {
                        let k = choose|k: int| 0 <= k < j && (#[trigger] extra_before[a]) == sl[k];
                        assert(sl[k].updated_at <= sl[j as int].updated_at);
                        assert(sl[k].id != sl[j as int].id);
                    }
                }
                assert forall|a: int| 0 <= a < extra.len() implies exists|k: int|
                    0 <= k < j + 1 && (#[trigger] extra[a]) == sl[k] by {
                    if a < extra.len() - 1 {
                        let k = choose|k: int| 0 <= k < j && (#[trigger] extra_before[a]) == sl[k];
                        assert(0 <= k < j + 1 && extra[a] == sl[k]);
                    } else {
                        assert(extra[a] == sl[j as int]);
                    }
                }
                assert forall|k: int|
                    0 <= k < j + 1 && !client_has(cs, (#[trigger] sl[k]).id) && !in_result(
                        s1,
                        sl[k].id,
                    ) implies in_result(extra, sl[k].id) by {
                    if k == j {
                        assert(extra[extra.len() - 1] == sl[j as int]);
                    } else {
                        let a = choose|a: int|
                            0 <= a < extra_before.len() && extra_before[a].id == sl[k].id;
                        assert(extra[a] == extra_before[a]);
                    }
                }
            }
        } else {
            proof {
                assert(client_has(cs, sl[j as int].id) || in_result(s1, sl[j as int].id));
            }
        }
        j = j + 1;
    }
    proof {
        assert forall|id: Seq<char>|
            m1.contains_key(id) && (#[trigger] m1[id]).updated_at > client_last_sync && !client_has(
                cs,
                id,
            ) && !in_result(s1, id) implies in_result(
            notes_to_send.deep_view().skip(s1_len as int),
            id,
        ) by {
            assert(in_result(sl, id));
            let k = choose|k: int| 0 <= k < sl.len() && (#[trigger] sl[k]).id == id;
        }
        let rdv = notes_to_send.deep_view();
        let extra = rdv.skip(s1_len as int);
        assert forall|a: int, b: int| 0 <= a < b < rdv.len() implies rdv[a].id != rdv[b].id by {
            if b < s1_len {
                assert(rdv.take(s1_len as int)[a] == rdv[a]);
                assert(rdv.take(s1_len as int)[b] == rdv[b]);
                assert(s1[a].id != s1[b].id);
            } else if a >= s1_len {
                assert(extra[a - s1_len] == rdv[a]);
                assert(extra[b - s1_len] == rdv[b]);
            } else {
                assert(rdv.take(s1_len as int)[a] == rdv[a]);
                assert(extra[b - s1_len] == rdv[b]);
                assert(!in_result(s1, extra[b - s1_len].id));
                if rdv[a].id == rdv[b].id {
                    assert(s1[a].id == extra[b - s1_len].id);
                    assert(in_result(s1, extra[b - s1_len].id));
                }
            }
        }
    }
    notes_to_send
}

/// Process one sync request: merge the client's notes and wrap the delta in
/// a response.
pub fn process_sync_request(store: &mut Store, request: SyncRequest) -> (r: SyncResponse)
    requires
        old(store).wf(),
    ensures
        final(store).wf(),
        final(store).state_seq() == old(store).state_seq(),
        final(store).version_model() == old(store).version_model(),
        final(store).notes_model() == merge_map(
            old(store).notes_model(),
            request.notes.deep_view(),
        ),
        merge_response_ok(
            old(store).notes_model(),
            request.notes.deep_view(),
            request.last_sync,
            r.notes.deep_view(),
        ),
{
    let notes = merge_notes(store, request.notes, request.last_sync);
    SyncResponse { notes }
}

/// Syncing an empty batch is exactly the incremental feed: the response is
/// an ordered listing of every resident note newer than the watermark, and
/// the store itself does not change.
pub proof fn lemma_empty_batch_is_since(m: Map<Seq<char>, NoteV>, last_sync: i64, rs: Seq<NoteV>)
    requires
        merge_response_ok(m, Seq::<NoteV>::empty(), last_sync, rs),
    ensures
        merge_map(m, Seq::<NoteV>::empty()) == m,
        sorted_asc(rs),
        distinct_note_ids(rs),
        forall|a: int| 0 <= a < rs.len() ==> {
            &&& m.contains_key((#[trigger] rs[a]).id)
            &&& m[rs[a].id] == rs[a]
            &&& rs[a].updated_at > last_sync
        },
        forall|id: Seq<char>|
            m.contains_key(id) && (#[trigger] m[id]).updated_at > last_sync ==> in_result(rs, id),
{
    assert(step1_resp(m, Seq::<NoteV>::empty()) =~= Seq::<NoteV>::empty());
    assert(rs.skip(0) =~= rs);
    assert forall|id: Seq<char>|
        m.contains_key(id) && (#[trigger] m[id]).updated_at > last_sync implies in_result(
        rs,
        id,
    ) by {
        if client_has(Seq::<NoteV>::empty(), id) {
            let i = choose|i: int|
                0 <= i < Seq::<NoteV>::empty().len() && Seq::<NoteV>::empty()[i].id == id;
        }
        if in_result(Seq::<NoteV>::empty(), id) {
            let i = choose|i: int|
                0 <= i < Seq::<NoteV>::empty().len() && Seq::<NoteV>::empty()[i].id == id;
        }
    }
}

/// After a merge, the store holds every id of the batch, each no older than
/// the version the batch carried.
proof fn lemma_merge_covers(m: Map<Seq<char>, NoteV>, cs: Seq<NoteV>)
    ensures
        forall|id: Seq<char>| m.contains_key(id) ==> merge_map(m, cs).contains_key(id),
        forall|i: int|
            0 <= i < cs.len() ==> merge_map(m, cs).contains_key((#[trigger] cs[i]).id)
                && merge_map(m, cs)[cs[i].id].updated_at >= cs[i].updated_at,
        forall|id: Seq<char>|
            m.contains_key(id) ==> merge_map(m, cs)[id].updated_at >= m[id].updated_at,
    decreases cs.len(),
{
    if cs.len() > 0 {
        lemma_merge_covers(m, cs.drop_last());
        assert forall|i: int|
            0 <= i < cs.len() implies merge_map(m, cs).contains_key((#[trigger] cs[i]).id)
            && merge_map(m, cs)[cs[i].id].updated_at >= cs[i].updated_at by {
            if i < cs.len() - 1 {
                assert(cs.drop_last()[i] == cs[i]);
            }
        }
    }
}

/// Replaying a round with the same batch is safe: the merged store absorbs
/// the same batch a second time without changing.
pub proof fn lemma_merge_idempotent(m: Map<Seq<char>, NoteV>, cs: Seq<NoteV>)
    ensures
        merge_map(merge_map(m, cs), cs) == merge_map(m, cs),
    decreases cs.len(),
{
    lemma_merge_covers(m, cs);
    lemma_merge_absorbed(merge_map(m, cs), cs);
}

/// A store that already holds every note of the batch at least as new is
/// left unchanged by merging the batch.
proof fn lemma_merge_absorbed(m: Map<Seq<char>, NoteV>, cs: Seq<NoteV>)
    requires
        forall|i: int|
            0 <= i < cs.len() ==> m.contains_key((#[trigger] cs[i]).id) && m[cs[i].id].updated_at
                >= cs[i].updated_at,
    ensures
        merge_map(m, cs) == m,
    decreases cs.len(),
{
    if cs.len() > 0 {
        assert forall|i: int|
            0 <= i < cs.drop_last().len() implies m.contains_key((#[trigger] cs.drop_last()[i]).id)
            && m[cs.drop_last()[i].id].updated_at >= cs.drop_last()[i].updated_at by {
            assert(cs.drop_last()[i] == cs[i]);
        }
        lemma_merge_absorbed(m, cs.drop_last());
        assert(cs[cs.len() - 1] == cs.last());
        assert(upsert_model(m, cs.last()) == m);
    }
}

} // verus!
