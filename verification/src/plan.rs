//! Where the values that a job hands back are saved.

use vstd::prelude::*;

verus! {

/// What a client is answered once the values of its job are saved.
#[derive(Clone, Copy, Debug, PartialEq, Eq, Structural)]
pub enum Reply {
    /// The id under which the job's new value was saved.
    NewId(usize),
    /// The job only replaced values that already had ids.
    Done,
}

/// The ids at which the values that a job hands back are saved, in order, and
/// the reply owed to the job's client afterwards.
pub struct SavePlan {
    pub save_location_ids: Vec<usize>,
    pub reply: Reply,
}

/// The mathematical content of a [`SavePlan`].
pub ghost struct SavePlanView {
    pub ids: Seq<usize>,
    pub reply: Reply,
}

impl View for SavePlan {
    type V = SavePlanView;

    open spec fn view(&self) -> SavePlanView {
        SavePlanView { ids: self.save_location_ids@, reply: self.reply }
    }
}

/// The reply answers with this id.
pub open spec fn promises(reply: Reply, id: usize) -> bool {
    reply == Reply::NewId(id)
}

/// The ids answered so far, after the reply is sent.
pub open spec fn record_reply(answered: Set<usize>, reply: Reply) -> Set<usize> {
    match reply {
        Reply::NewId(id) => answered.insert(id),
        Reply::Done => answered,
    }
}

/// `storage` after the values are saved pairwise at the ids, first pair
/// first; where one list is longer than the other, its extra items are
/// ignored.
pub open spec fn saved<V>(storage: Map<usize, V>, ids: Seq<usize>, values: Seq<V>) -> Map<
    usize,
    V,
>
    decreases ids.len(),
{
    if ids.len() == 0 || values.len() == 0 {
        storage
    } else {
        saved(storage.insert(ids[0], values[0]), ids.drop_first(), values.drop_first())
    }
}

/// An id that none of the saved pairs names keeps its entry.
pub proof fn lemma_saved_untouched<V>(
    storage: Map<usize, V>,
    ids: Seq<usize>,
    values: Seq<V>,
    k: usize,
)
    requires
        forall|i: int| 0 <= i < ids.len() && i < values.len() ==> ids[i] != k,
    ensures
        saved(storage, ids, values).contains_key(k) == storage.contains_key(k),
        saved(storage, ids, values)[k] == storage[k],
    decreases ids.len(),
{
    if ids.len() != 0 && values.len() != 0 {
        assert forall|i: int|
            0 <= i < ids.drop_first().len() && i < values.drop_first().len() implies ids.drop_first()[i]
            != k by {
            assert(ids[i + 1] != k);
        }
        lemma_saved_untouched(storage.insert(ids[0], values[0]), ids.drop_first(), values.drop_first(), k);
    }
}

/// The last saved pair that names an id decides its value.
pub proof fn lemma_saved_last_write<V>(
    storage: Map<usize, V>,
    ids: Seq<usize>,
    values: Seq<V>,
    j: int,
)
    requires
        0 <= j < ids.len(),
        j < values.len(),
        forall|i: int| j < i < ids.len() && i < values.len() ==> ids[i] != ids[j],
    ensures
        saved(storage, ids, values).contains_key(ids[j]),
        saved(storage, ids, values)[ids[j]] == values[j],
    decreases ids.len(),
{
    let rest_ids = ids.drop_first();
    let rest_values = values.drop_first();
    let next = storage.insert(ids[0], values[0]);
    if j == 0 {
        assert forall|i: int| 0 <= i < rest_ids.len() && i < rest_values.len() implies rest_ids[i]
            != ids[0] by {
            assert(ids[i + 1] != ids[0]);
        }
        lemma_saved_untouched(next, rest_ids, rest_values, ids[0]);
    } else {
        assert forall|i: int|
            j - 1 < i < rest_ids.len() && i < rest_values.len() implies #[trigger] rest_ids[i]
            != rest_ids[j - 1] by {
            assert(ids[i + 1] != ids[j]);
        }
        lemma_saved_last_write(next, rest_ids, rest_values, j - 1);
    }
}

/// Saving only at ids under a bound keeps every stored id under it.
pub proof fn lemma_saved_bounded<V>(
    storage: Map<usize, V>,
    ids: Seq<usize>,
    values: Seq<V>,
    bound: nat,
)
    requires
        forall|k: usize| storage.contains_key(k) ==> k < bound,
        forall|i: int| 0 <= i < ids.len() ==> ids[i] < bound,
    ensures
        forall|k: usize| saved(storage, ids, values).contains_key(k) ==> k < bound,
    decreases ids.len(),
{
    if ids.len() != 0 && values.len() != 0 {
        assert forall|i: int| 0 <= i < ids.drop_first().len() implies ids.drop_first()[i] < bound by {
            assert(ids[i + 1] < bound);
        }
        let next = storage.insert(ids[0], values[0]);
        lemma_saved_bounded(next, ids.drop_first(), values.drop_first(), bound);
        assert(saved(storage, ids, values) == saved(next, ids.drop_first(), values.drop_first()));
    }
}

/// Saving one more pair after equally long lists is one more insert.
pub proof fn lemma_saved_push<V>(
    storage: Map<usize, V>,
    ids: Seq<usize>,
    values: Seq<V>,
    id: usize,
    value: V,
)
    requires
        ids.len() == values.len(),
    ensures
        saved(storage, ids.push(id), values.push(value)) == saved(storage, ids, values).insert(
            id,
            value,
        ),
    decreases ids.len(),
{
    if ids.len() == 0 {
        assert(ids.push(id).drop_first() =~= Seq::<usize>::empty());
        assert(values.push(value).drop_first() =~= Seq::<V>::empty());
        assert(saved(storage.insert(id, value), Seq::<usize>::empty(), Seq::<V>::empty())
            == storage.insert(id, value));
        assert(saved(storage, ids, values) == storage);
    } else {
        let next = storage.insert(ids[0], values[0]);
        assert(ids.push(id).drop_first() =~= ids.drop_first().push(id));
        assert(values.push(value).drop_first() =~= values.drop_first().push(value));
        lemma_saved_push(next, ids.drop_first(), values.drop_first(), id, value);
        assert(ids.push(id)[0] == ids[0]);
        assert(values.push(value)[0] == values[0]);
        assert(saved(storage, ids, values) == saved(next, ids.drop_first(), values.drop_first()));
    }
}

} // verus!
