use vstd::prelude::*;

verus! {

/// One structural edit of a positional container, as it acts on the
/// mathematical sequence of the container's contents.
pub enum SeqEdit<T> {
    Push(T),
    Pop,
    Insert(int, T),
    Remove(int),
}

/// Whether an edit succeeds on a sequence: pushes always do, pops need a
/// nonempty sequence, insertions a position up to the length, removals one
/// below it.
pub open spec fn edit_succeeds<T>(s: Seq<T>, e: SeqEdit<T>) -> bool {
    match e {
        SeqEdit::Push(_) => true,
        SeqEdit::Pop => s.len() > 0,
        SeqEdit::Insert(i, _) => 0 <= i <= s.len(),
        SeqEdit::Remove(i) => 0 <= i < s.len(),
    }
}

/// The sequence after one edit; a failing edit leaves it unchanged, exactly
/// as the container's error results do.
pub open spec fn apply_edit<T>(s: Seq<T>, e: SeqEdit<T>) -> Seq<T> {
    if edit_succeeds(s, e) {
        match e {
            SeqEdit::Push(x) => s.push(x),
            SeqEdit::Pop => s.drop_last(),
            SeqEdit::Insert(i, x) => s.insert(i, x),
            SeqEdit::Remove(i) => s.remove(i),
        }
    } else {
        s
    }
}

/// The sequence after a whole run of edits, applied in order.
pub open spec fn apply_edits<T>(s: Seq<T>, es: Seq<SeqEdit<T>>) -> Seq<T>
    decreases es.len(),
{
    if es.len() == 0 {
        s
    } else {
        apply_edits(apply_edit(s, es[0]), es.skip(1))
    }
}

/// The net element count of a run of edits: one more for every push or
/// insertion that succeeds, one less for every pop or removal that does.
pub open spec fn net_change<T>(s: Seq<T>, es: Seq<SeqEdit<T>>) -> int
    decreases es.len(),
{
    if es.len() == 0 {
        0int
    } else {
        let d: int = if edit_succeeds(s, es[0]) {
            match es[0] {
                SeqEdit::Push(_) => 1,
                SeqEdit::Insert(_, _) => 1,
                SeqEdit::Pop => -1,
                SeqEdit::Remove(_) => -1,
            }
        } else {
            0
        };
        d + net_change(apply_edit(s, es[0]), es.skip(1))
    }
}

/// Length invariant: after any run of edits, the length equals the starting
/// length plus the net count of successful insertions minus successful
/// removals. Every mutation of `VecTiered` states in its contract that it
/// performs exactly the corresponding sequence edit (or leaves the contents
/// unchanged on failure), so this law carries over to any run of `push`,
/// `pop`, `insert` and `remove` calls on the container.
pub proof fn lemma_length_tracks_edits<T>(s: Seq<T>, es: Seq<SeqEdit<T>>)
    ensures
        apply_edits(s, es).len() == s.len() + net_change(s, es),
    decreases es.len(),
{
    if es.len() == 0 {
    } else {
        let s1 = apply_edit(s, es[0]);
        lemma_length_tracks_edits(s1, es.skip(1));
    }
}

/// Round-trip law: inserting an element at a valid index and then removing
/// it at the same index restores the sequence it started from. Combined with the
/// contracts of `VecTiered::insert` and `VecTiered::remove`, a successful
/// `insert(i, x)` followed by `remove(i)` leaves the container's contents
/// exactly as they were.
pub proof fn lemma_insert_remove_round_trip<T>(s: Seq<T>, i: int, x: T)
    requires
        0 <= i <= s.len(),
    ensures
        s.insert(i, x).remove(i) == s,
{
    assert(s.insert(i, x).remove(i) =~= s);
}

/// Boundary law: inserting at position `len` is the same as appending.
/// Combined with the contracts of `VecTiered::insert` and `VecTiered::push`,
/// `insert(length, x)` succeeds and has exactly the effect of `push(x)`.
pub proof fn lemma_insert_at_len_is_push<T>(s: Seq<T>, x: T)
    ensures
        s.insert(s.len() as int, x) == s.push(x),
{
    assert(s.insert(s.len() as int, x) =~= s.push(x));
}

} // verus!
