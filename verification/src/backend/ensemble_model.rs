//! Several models that score together: the ensemble's size for a token
//! sequence is the mean of its members' sizes.

use vstd::prelude::*;
use super::clm_model::{loads, ClmModel};
use super::dataset::{chunk, datasets, divided_up, is_chunking, Dataset};
use super::random::{fresh_generator, shuffle_items};
use super::sequences::{ascending, copy_all, count_up_to, parallel_map, sort_by_size};
use super::tokenizer::ClmTokenizer;
use super::training_options::TrainingOptions;
use super::{ClmError, Token};

verus! {

/// A mean, kept exact: the sum of the values and how many they are.
#[derive(Debug, Clone, Copy)]
pub struct Mean {
    pub total: usize,
    pub count: usize,
}

/// The dictionaries of the models, in order.
pub open spec fn dictionaries(models: Seq<ClmModel>) -> Seq<Seq<u8>> {
    models.map_values(|m: ClmModel| m.dictionary())
}

/// The bytes of each buffer, in order.
pub open spec fn buffers(list: Seq<Vec<u8>>) -> Seq<Seq<u8>> {
    list.map_values(|b: Vec<u8>| b@)
}

/// The rows as plain values: each index with its bytes.
pub open spec fn rows(list: Seq<(usize, Vec<u8>)>) -> Seq<(usize, Seq<u8>)> {
    list.map_values(|row: (usize, Vec<u8>)| (row.0, row.1@))
}

/// Whether the indexes of the rows never decrease.
pub open spec fn in_index_order(list: Seq<(usize, Seq<u8>)>) -> bool {
    forall|i: int, j: int| 0 <= i <= j < list.len() ==> list[i].0 <= list[j].0
}

/// The rows with the given index, in their order.
pub open spec fn rows_at(list: Seq<(usize, Seq<u8>)>, index: usize) -> Seq<(usize, Seq<u8>)>
    decreases list.len(),
{
    if list.len() == 0 {
        Seq::empty()
    } else {
        let before = rows_at(list.drop_last(), index);
        if list.last().0 == index {
            before.push(list.last())
        } else {
            before
        }
    }
}

/// The rows with an index in two lists, one after the other, are those of
/// the first list followed by those of the second.
proof fn lemma_rows_at_concat(a: Seq<(usize, Seq<u8>)>, b: Seq<(usize, Seq<u8>)>, index: usize)
    ensures
        rows_at(a + b, index) == rows_at(a, index) + rows_at(b, index),
    decreases b.len(),
{
    if b.len() == 0 {
        assert(a + b =~= a);
        assert(rows_at(a, index) + rows_at(b, index) =~= rows_at(a, index));
    } else {
        lemma_rows_at_concat(a, b.drop_last(), index);
        assert((a + b).drop_last() =~= a + b.drop_last());
        assert((a + b).last() == b.last());
        if b.last().0 == index {
            assert((rows_at(a, index) + rows_at(b.drop_last(), index)).push(b.last())
                =~= rows_at(a, index) + rows_at(b.drop_last(), index).push(b.last()));
        }
    }
}

/// A list without a row of an index has no rows with that index.
proof fn lemma_rows_at_none(list: Seq<(usize, Seq<u8>)>, index: usize)
    requires
        forall|k: int| 0 <= k < list.len() ==> (#[trigger] list[k]).0 != index,
    ensures
        rows_at(list, index) == Seq::<(usize, Seq<u8>)>::empty(),
    decreases list.len(),
{
    if list.len() > 0 {
        assert forall|k: int| 0 <= k < list.drop_last().len() implies (
        #[trigger] list.drop_last()[k]).0 != index by {
            assert(list.drop_last()[k] == list[k]);
        }
        lemma_rows_at_none(list.drop_last(), index);
        assert(list.last() == list[list.len() - 1]);
    }
}

/// Putting a row in before the rows with larger indexes adds it behind the
/// rows with its own index, and leaves the rows with other indexes alone.
proof fn lemma_rows_at_insert(
    list: Seq<(usize, Seq<u8>)>,
    at: int,
    row: (usize, Seq<u8>),
    index: usize,
)
    requires
        0 <= at <= list.len(),
        forall|k: int| at <= k < list.len() ==> (#[trigger] list[k]).0 > row.0,
    ensures
        rows_at(list.insert(at, row), index) == if index == row.0 {
            rows_at(list, index).push(row)
        } else {
            rows_at(list, index)
        },
{
    let head = list.take(at);
    let tail = list.skip(at);
    assert(list =~= head + tail);
    assert(list.insert(at, row) =~= head.push(row) + tail);
    lemma_rows_at_concat(head, tail, index);
    lemma_rows_at_concat(head.push(row), tail, index);
    assert(head.push(row).drop_last() =~= head);
    if index == row.0 {
        assert forall|k: int| 0 <= k < tail.len() implies (#[trigger] tail[k]).0 != index by {
            assert(tail[k] == list[at + k]);
        }
        lemma_rows_at_none(tail, index);
        assert(rows_at(head, index).push(row) + Seq::<(usize, Seq<u8>)>::empty() =~= rows_at(
            head,
            index,
        ).push(row));
        assert(rows_at(head, index) + Seq::<(usize, Seq<u8>)>::empty() =~= rows_at(head, index));
    }
}

/// The rows that store the dictionaries: each with its place in the list.
pub open spec fn rows_of(list: Seq<Seq<u8>>) -> Seq<(usize, Seq<u8>)> {
    Seq::new(list.len(), |i: int| (i as usize, list[i]))
}

/// Rows that store dictionaries are in the order of their indexes, and hold
/// the dictionaries: an ensemble that is stored in rows and read from them
/// again has the dictionaries it had.
pub proof fn lemma_rows_keep_dictionaries(list: Seq<Seq<u8>>)
    requires
        list.len() <= usize::MAX,
    ensures
        in_index_order(rows_of(list)),
        rows_of(list).map_values(|row: (usize, Seq<u8>)| row.1) == list,
{
    assert(rows_of(list).map_values(|row: (usize, Seq<u8>)| row.1) =~= list);
    assert forall|i: int, j: int| 0 <= i <= j < rows_of(list).len() implies rows_of(list)[i].0
        <= rows_of(list)[j].0 by {
        assert(rows_of(list)[i].0 == i as usize);
        assert(rows_of(list)[j].0 == j as usize);
    }
}

/// The sizes of `tokens` under each of the models, added up.
pub open spec fn sizes_sum(models: Seq<ClmModel>, tokens: Seq<Token>) -> nat
    decreases models.len(),
{
    if models.len() == 0 {
        0
    } else {
        sizes_sum(models.drop_last(), tokens) + models.last().size(tokens)
    }
}

/// Whether all models have the tokenizer of the first.
pub open spec fn share_tokenizer(models: Seq<ClmModel>) -> bool {
    forall|i: int|
        0 <= i < models.len() ==> (#[trigger] models[i]).tokenizer().same_as(models[0].tokenizer())
}

/// Whether the coder takes every model's dictionary for `tokens`.
pub open spec fn all_accept(models: Seq<ClmModel>, tokens: Seq<Token>) -> bool {
    forall|i: int| 0 <= i < models.len() ==> (#[trigger] models[i]).frame(tokens) is Some
}

/// Whether the ensemble has a size for `tokens`: the coder takes every
/// model's dictionary for them, and the sizes add up to a number that a
/// machine word holds.
pub open spec fn measurable(models: Seq<ClmModel>, tokens: Seq<Token>) -> bool {
    all_accept(models, tokens) && sizes_sum(models, tokens) <= usize::MAX
}

/// Whether the coder takes every dictionary when a model is made of it.
pub open spec fn all_load(list: Seq<Seq<u8>>) -> bool {
    forall|i: int| 0 <= i < list.len() ==> loads(#[trigger] list[i])
}

/// The bytes of each row, in order.
pub open spec fn row_bytes(list: Seq<(usize, Seq<u8>)>) -> Seq<Seq<u8>> {
    list.map_values(|row: (usize, Seq<u8>)| row.1)
}

/// The sizes of the first models add up to no more than the sizes of all.
pub proof fn lemma_sizes_sum_grows(models: Seq<ClmModel>, tokens: Seq<Token>, count: int)
    requires
        0 <= count <= models.len(),
    ensures
        sizes_sum(models.take(count), tokens) <= sizes_sum(models, tokens),
    decreases models.len(),
{
    if count == models.len() {
        assert(models.take(count) =~= models);
    } else {
        assert(models.take(count) =~= models.drop_last().take(count));
        lemma_sizes_sum_grows(models.drop_last(), tokens, count);
    }
}

/// Lists with the same rows hold dictionaries that the coder takes alike.
pub proof fn lemma_same_rows_load_alike(a: Seq<(usize, Seq<u8>)>, b: Seq<(usize, Seq<u8>)>)
    requires
        a.to_multiset() == b.to_multiset(),
    ensures
        all_load(row_bytes(a)) == all_load(row_bytes(b)),
{
    broadcast use vstd::seq_lib::group_to_multiset_ensures;

    a.to_multiset_ensures();
    b.to_multiset_ensures();
    if all_load(row_bytes(a)) {
        assert forall|i: int| 0 <= i < row_bytes(b).len() implies loads(
            #[trigger] row_bytes(b)[i],
        ) by {
            assert(b.contains(b[i]));
            assert(a.to_multiset().count(b[i]) > 0);
            assert(a.contains(b[i]));
            let k = choose|k: int| 0 <= k < a.len() && a[k] == b[i];
            assert(loads(row_bytes(a)[k]));
        }
    }
    if all_load(row_bytes(b)) {
        assert forall|i: int| 0 <= i < row_bytes(a).len() implies loads(
            #[trigger] row_bytes(a)[i],
        ) by {
            assert(a.contains(a[i]));
            assert(b.to_multiset().count(a[i]) > 0);
            assert(b.contains(a[i]));
            let k = choose|k: int| 0 <= k < b.len() && b[k] == a[i];
            assert(loads(row_bytes(b)[k]));
        }
    }
}

/// Whether `top` holds the `limit` cheapest of the candidates in `all`, the
/// cheapest first: it is in ascending order, and together with some rest that
/// is no cheaper it makes up `all`.
pub open spec fn is_top(all: Seq<(Token, usize)>, limit: nat, top: Seq<(Token, usize)>) -> bool {
    &&& top.len() == if limit <= all.len() {
        limit
    } else {
        all.len()
    }
    &&& ascending(top)
    &&& exists|rest: Seq<(Token, usize)>|
        {
            &&& #[trigger] (top + rest).to_multiset() == all.to_multiset()
            &&& forall|i: int, j: int|
                0 <= i < top.len() && 0 <= j < rest.len() ==> top[i].1 <= rest[j].1
        }
}

/// The `limit` cheapest of the candidates, the cheapest first, ties in a
/// random order.
pub fn cheapest(candidates: Vec<(Token, usize)>, limit: usize) -> (top: Vec<(Token, usize)>)
    ensures
        is_top(candidates@, limit as nat, top@),
{
    let mut rng = fresh_generator();
    cheapest_with(candidates, limit, &mut rng)
}

/// The `limit` cheapest of the candidates, the cheapest first. Candidates are
/// shuffled with the generator before they are sorted, so that ties fall in
/// an order that the generator decides.
pub fn cheapest_with(
    candidates: Vec<(Token, usize)>,
    limit: usize,
    rng: &mut rand::rngs::StdRng,
) -> (top: Vec<(Token, usize)>)
    ensures
        is_top(candidates@, limit as nat, top@),
{
    let mut list = candidates;
    shuffle_items(&mut list, rng);
    sort_by_size(&mut list);
    let ghost sorted = list@;
    list.truncate(limit);
    proof {
        let rest = if limit <= sorted.len() {
            sorted.skip(limit as int)
        } else {
            Seq::<(Token, usize)>::empty()
        };
        vstd::seq_lib::to_multiset_len(sorted);
        vstd::seq_lib::to_multiset_len(candidates@);
        assert(sorted.len() == candidates@.len());
        assert(list@ + rest =~= sorted);
        assert((list@ + rest).to_multiset() == candidates@.to_multiset());
        assert forall|i: int, j: int| 0 <= i < list@.len() && 0 <= j < rest.len() implies list@[i].1
            <= rest[j].1 by {
            assert(list@[i] == sorted[i]);
            assert(rest[j] == sorted[limit + j]);
        }
        assert forall|i: int, j: int| 0 <= i <= j < list@.len() implies list@[i].1
            <= list@[j].1 by {
            assert(list@[i] == sorted[i] && list@[j] == sorted[j]);
        }
    }
    list
}

/// The rows in the order of their indexes, rows with the same index in the
/// order in which they came.
pub fn rows_in_index_order(list: &Vec<(usize, Vec<u8>)>) -> (ordered: Vec<(usize, Vec<u8>)>)
    ensures
        ordered.len() == list.len(),
        in_index_order(rows(ordered@)),
        rows(ordered@).to_multiset() == rows(list@).to_multiset(),
        forall|index: usize| #[trigger]
            rows_at(rows(ordered@), index) == rows_at(rows(list@), index),
        in_index_order(rows(list@)) ==> rows(ordered@) == rows(list@),
{
    let mut ordered: Vec<(usize, Vec<u8>)> = Vec::new();
    let mut i: usize = 0;
    proof {
        assert(rows(list@).take(0) =~= rows(ordered@));
    }
    while i < list.len()
        invariant
            i <= list.len(),
            ordered.len() == i,
            in_index_order(rows(ordered@)),
            rows(ordered@).to_multiset() == rows(list@).take(i as int).to_multiset(),
            forall|index: usize| #[trigger]
                rows_at(rows(ordered@), index) == rows_at(rows(list@).take(i as int), index),
            in_index_order(rows(list@)) ==> rows(ordered@) == rows(list@).take(i as int),
        decreases list.len() - i,
    {
        let index: usize = list[i].0;
        let bytes = copy_all(&list[i].1);
        let mut at: usize = ordered.len();
        while at > 0 && ordered[at - 1].0 > index
            invariant
                at <= ordered.len(),
                forall|k: int| at <= k < ordered.len() ==> (#[trigger] ordered@[k]).0 > index,
            decreases at,
        {
            at -= 1;
        }
        let ghost before = rows(ordered@);
        let ghost old_ordered = ordered@;
        let ghost row = (index, bytes@);
        ordered.insert(at, (index, bytes));
        proof {
            broadcast use vstd::seq_lib::group_to_multiset_ensures;

            let after = rows(ordered@);
            assert(after =~= before.insert(at as int, row));
            assert(rows(list@).take(i + 1) =~= rows(list@).take(i as int).push(row));
            assert forall|a: int, b: int| 0 <= a <= b < after.len() implies after[a].0
                <= after[b].0 by {
                if a < at && b > at {
                    assert(before[a].0 <= before[at - 1].0);
                    assert(ordered@[b].0 == before[b - 1].0);
                }
            }
            assert forall|other: usize| #[trigger]
                rows_at(after, other) == rows_at(rows(list@).take(i + 1), other) by {
                assert forall|k: int| at <= k < before.len() implies (#[trigger] before[k]).0
                    > row.0 by {
                    assert(before[k].0 == old_ordered[k].0);
                }
                lemma_rows_at_insert(before, at as int, row, other);
                assert(rows(list@).take(i + 1).drop_last() =~= rows(list@).take(i as int));
            }
            if in_index_order(rows(list@)) {
                if at < before.len() {
                    assert(rows(list@)[at as int] == before[at as int]);
                    assert(rows(list@)[at as int].0 <= rows(list@)[i as int].0);
                    assert(false);
                }
                assert(after =~= before.push(row));
            }
        }
        i += 1;
    }
    proof {
        assert(rows(list@).take(list.len() as int) =~= rows(list@));
    }
    ordered
}

/// An ordered list of models that score together.
#[derive(Debug)]
pub struct EnsembleModel {
    models: Vec<ClmModel>,
}

impl EnsembleModel {
    #[verifier::type_invariant]
    spec fn has_members(self) -> bool {
        self.models.len() > 0 && share_tokenizer(self.models@)
    }

    /// The member models, in order.
    pub closed spec fn members(&self) -> Seq<ClmModel> {
        self.models@
    }

    /// The number of candidate tokens: that of the first member, whose
    /// tokenizer all members share.
    pub open spec fn vocabulary(&self) -> nat {
        self.members()[0].vocabulary()
    }

    /// Whether `sizes` lists every candidate in order, each with the sum of the
    /// members' compressed sizes of `tokens` extended by it.
    pub open spec fn scores(&self, tokens: Seq<Token>, sizes: Seq<(Token, usize)>) -> bool {
        &&& sizes.len() == self.vocabulary()
        &&& forall|t: int|
            0 <= t < sizes.len() ==> {
                &&& (#[trigger] sizes[t]).0 == t
                &&& all_accept(self.members(), tokens.push(t as Token))
                &&& sizes[t].1 == sizes_sum(self.members(), tokens.push(t as Token))
            }
    }

    /// Whether the ensemble has a size for `tokens` extended by each candidate.
    pub open spec fn measures_candidates(&self, tokens: Seq<Token>) -> bool {
        forall|t: int|
            0 <= t < self.vocabulary() ==> #[trigger] measurable(
                self.members(),
                tokens.push(t as Token),
            )
    }

    /// Whether `candidate` is a token with the size that `tokens` have when
    /// the token follows them.
    pub open spec fn follows(&self, tokens: Seq<Token>, candidate: (Token, usize)) -> bool {
        &&& candidate.0 < self.vocabulary()
        &&& all_accept(self.members(), tokens.push(candidate.0))
        &&& candidate.1 == sizes_sum(self.members(), tokens.push(candidate.0))
    }

    /// Each of the cheapest candidates is one of the candidates: a token with
    /// the size that `tokens` have when the token follows them.
    pub proof fn lemma_top_follows(
        &self,
        tokens: Seq<Token>,
        all: Seq<(Token, usize)>,
        limit: nat,
        top: Seq<(Token, usize)>,
    )
        requires
            self.scores(tokens, all),
            is_top(all, limit, top),
        ensures
            forall|i: int| 0 <= i < top.len() ==> self.follows(tokens, #[trigger] top[i]),
    {
        broadcast use vstd::seq_lib::group_to_multiset_ensures;

        let rest = choose|rest: Seq<(Token, usize)>|
            {
                &&& #[trigger] (top + rest).to_multiset() == all.to_multiset()
                &&& forall|i: int, j: int|
                    0 <= i < top.len() && 0 <= j < rest.len() ==> top[i].1 <= rest[j].1
            };
        (top + rest).to_multiset_ensures();
        all.to_multiset_ensures();
        assert forall|i: int| 0 <= i < top.len() implies self.follows(tokens, #[trigger] top[i]) by {
            let item = top[i];
            assert((top + rest)[i] == item);
            assert((top + rest).contains(item));
            assert(all.to_multiset().count(item) > 0);
            assert(all.contains(item));
            let t = choose|t: int| 0 <= t < all.len() && all[t] == item;
            assert(all[t].0 == t);
            assert(tokens.push(t as Token) == tokens.push(item.0));
        }
    }

    /// The datasets to train the members on: the dataset cut into as many parts
    /// as the options ask models for. An empty part leaves its model
    /// untrained, and an empty dataset gives empty parts only.
    pub fn training_chunks(data: &Dataset, options: &TrainingOptions) -> (chunks: Result<
        Vec<Dataset>,
        ClmError,
    >)
        ensures
            match chunks {
                Ok(list) => {
                    &&& options.valid()
                    &&& list.len() == options.ensemble_size
                    &&& is_chunking(data@, options.ensemble_size as nat, datasets(list@))
                    &&& datasets(list@).flatten() == data@
                },
                Err(e) => !options.valid() && e == ClmError::InvalidOptions,
            },
    {
        match options.validate() {
            Ok(_) => {},
            Err(e) => {
                return Err(e);
            },
        }
        if data.len() == 0 {
            let mut list: Vec<Dataset> = Vec::new();
            let mut i: usize = 0;
            proof {
                assert(datasets(list@).flatten() =~= data@);
            }
            while i < options.ensemble_size
                invariant
                    i <= options.ensemble_size,
                    list.len() == i,
                    data@.len() == 0,
                    datasets(list@).flatten() == data@,
                    forall|j: int|
                        0 <= j < i ==> (#[trigger] datasets(list@)[j]) == Seq::<
                            Seq<Token>,
                        >::empty(),
                decreases options.ensemble_size - i,
            {
                let part = Dataset::empty();
                let ghost before = datasets(list@);
                list.push(part);
                proof {
                    assert(datasets(list@) =~= before.push(part@));
                    assert forall|j: int| 0 <= j < i + 1 implies (#[trigger] datasets(
                        list@,
                    )[j]) == Seq::<Seq<Token>>::empty() by {
                        if j < i {
                            assert(datasets(list@)[j] == before[j]);
                        }
                    }
                    before.lemma_flatten_push(part@);
                    assert(data@ + part@ =~= data@);
                }
                i += 1;
            }
            proof {
                let size = divided_up(data@.len(), options.ensemble_size as nat);
                assert forall|j: int| 0 <= j < list.len() implies (#[trigger] datasets(
                    list@,
                )[j]) == chunk(data@, size, j) by {
                    assert(j * size == 0) by (nonlinear_arith)
                        requires
                            size == 0,
                    ;
                    assert(chunk(data@, size, j) =~= Seq::<Seq<Token>>::empty());
                }
            }
            return Ok(list);
        }
        match data.split_into_chunks(options.ensemble_size) {
            Ok(list) => Ok(list),
            Err(e) => {
                proof {
                    assert(false);
                }
                Err(e)
            },
        }
    }

    /// The ensemble of the given models, of which there must be at least one,
    /// and which must all have the same tokenizer.
    pub fn from_models(models: Vec<ClmModel>) -> (ensemble: Result<Self, ClmError>)
        ensures
            match ensemble {
                Ok(e) => models.len() > 0 && share_tokenizer(models@) && e.members() == models@,
                Err(e) => !(models.len() > 0 && share_tokenizer(models@)) && e
                    == ClmError::InvalidOptions,
            },
    {
        if models.len() == 0 {
            return Err(ClmError::InvalidOptions);
        }
        let mut i: usize = 1;
        while i < models.len()
            invariant
                1 <= i <= models.len(),
                forall|k: int|
                    0 <= k < i ==> (#[trigger] models@[k]).tokenizer().same_as(
                        models@[0].tokenizer(),
                    ),
            decreases models.len() - i,
        {
            if !models[i].get_tokenizer().is_same(models[0].get_tokenizer()) {
                return Err(ClmError::InvalidOptions);
            }
            i += 1;
        }
        Ok(EnsembleModel { models })
    }

    /// The ensemble whose members have the given dictionaries, in order, each
    /// with the standard tokenizer.
    pub fn from_buffers(list: &Vec<Vec<u8>>) -> (ensemble: Result<Self, ClmError>)
        ensures
            match ensemble {
                Ok(e) => list.len() > 0 && all_load(buffers(list@)) && dictionaries(e.members())
                    == buffers(list@),
                Err(e) => if list.len() == 0 {
                    e == ClmError::InvalidOptions
                } else {
                    !all_load(buffers(list@)) && e == ClmError::CorruptModel
                },
            },
    {
        if list.len() == 0 {
            return Err(ClmError::InvalidOptions);
        }
        let mut models: Vec<ClmModel> = Vec::new();
        let mut i: usize = 0;
        proof {
            assert(dictionaries(models@) =~= buffers(list@).take(0));
        }
        while i < list.len()
            invariant
                i <= list.len(),
                list.len() > 0,
                models.len() == i,
                dictionaries(models@) == buffers(list@).take(i as int),
                forall|k: int| 0 <= k < i ==> (#[trigger] models@[k]).tokenizer() == ClmTokenizer::GPT2,
                forall|k: int| 0 <= k < i ==> loads(#[trigger] buffers(list@)[k]),
            decreases list.len() - i,
        {
            let model = match ClmModel::from_buffer(copy_all(&list[i])) {
                Ok(model) => model,
                Err(e) => {
                    proof {
                        assert(!loads(buffers(list@)[i as int]));
                    }
                    return Err(e);
                },
            };
            proof {
                assert(loads(buffers(list@)[i as int]));
            }
            let ghost before = dictionaries(models@);
            models.push(model);
            proof {
                assert(dictionaries(models@) =~= before.push(list@[i as int]@));
                assert(buffers(list@).take(i + 1) =~= buffers(list@).take(i as int).push(
                    list@[i as int]@,
                ));
            }
            i += 1;
        }
        proof {
            assert(buffers(list@).take(list.len() as int) =~= buffers(list@));
        }
        Ok(EnsembleModel { models })
    }

    /// The rows that store the ensemble: each member's dictionary with the
    /// member's place.
    pub fn to_rows(&self) -> (list: Vec<(usize, Vec<u8>)>)
        ensures
            rows(list@) == rows_of(dictionaries(self.members())),
            in_index_order(rows(list@)),
    {
        let mut list: Vec<(usize, Vec<u8>)> = Vec::new();
        let mut i: usize = 0;
        while i < self.models.len()
            invariant
                i <= self.models.len(),
                list.len() == i,
                forall|k: int|
                    0 <= k < i ==> (#[trigger] list@[k]).0 == k && list@[k].1@
                        == self.models@[k].dictionary(),
            decreases self.models.len() - i,
        {
            list.push((i, self.models[i].to_buffer()));
            i += 1;
        }
        proof {
            assert(rows(list@) =~= rows_of(dictionaries(self.members())));
        }
        list
    }

    /// The ensemble stored in the rows: one member for each row, in the order
    /// of the rows' indexes.
    pub fn from_rows(list: &Vec<(usize, Vec<u8>)>) -> (ensemble: Result<Self, ClmError>)
        ensures
            match ensemble {
                Ok(e) => {
                    &&& list.len() > 0
                    &&& exists|ordered: Seq<(usize, Seq<u8>)>|
                        {
                            &&& in_index_order(ordered)
                            &&& #[trigger] ordered.to_multiset() == rows(list@).to_multiset()
                            &&& dictionaries(e.members()) == ordered.map_values(
                                |row: (usize, Seq<u8>)| row.1,
                            )
                        }
                    &&& in_index_order(rows(list@)) ==> dictionaries(e.members()) == rows(
                        list@,
                    ).map_values(|row: (usize, Seq<u8>)| row.1)
                    &&& all_load(row_bytes(rows(list@)))
                },
                Err(e) => if list.len() == 0 {
                    e == ClmError::Parse
                } else {
                    !all_load(row_bytes(rows(list@))) && e == ClmError::CorruptModel
                },
            },
    {
        if list.len() == 0 {
            return Err(ClmError::Parse);
        }
        let ordered = rows_in_index_order(list);
        let mut only_bytes: Vec<Vec<u8>> = Vec::new();
        let mut i: usize = 0;
        while i < ordered.len()
            invariant
                i <= ordered.len(),
                only_bytes.len() == i,
                forall|k: int| 0 <= k < i ==> (#[trigger] only_bytes@[k])@ == ordered@[k].1@,
            decreases ordered.len() - i,
        {
            only_bytes.push(copy_all(&ordered[i].1));
            i += 1;
        }
        proof {
            broadcast use vstd::seq_lib::group_to_multiset_ensures;

            assert(rows(ordered@).len() == rows(list@).len());
            assert(buffers(only_bytes@) =~= rows(ordered@).map_values(
                |row: (usize, Seq<u8>)| row.1,
            ));
            assert(buffers(only_bytes@) =~= row_bytes(rows(ordered@)));
            lemma_same_rows_load_alike(rows(ordered@), rows(list@));
        }
        match Self::from_buffers(&only_bytes) {
            Ok(ensemble) => Ok(ensemble),
            Err(e) => Err(e),
        }
    }

    /// The number of members, which is at least one.
    pub fn len(&self) -> (count: usize)
        ensures
            count == self.members().len(),
            count > 0,
    {
        proof {
            use_type_invariant(self);
        }
        self.models.len()
    }

    /// The sum of the members' compressed sizes of `tokens` extended by
    /// `candidate`.
    pub fn candidate_size(&self, tokens: &Vec<Token>, candidate: Token) -> (size: Result<
        usize,
        ClmError,
    >)
        ensures
            match size {
                Ok(n) => measurable(self.members(), tokens@.push(candidate)) && n == sizes_sum(
                    self.members(),
                    tokens@.push(candidate),
                ),
                Err(e) => !measurable(self.members(), tokens@.push(candidate)) && e
                    == ClmError::CorruptModel,
            },
    {
        let mut prompt = copy_all(tokens);
        prompt.push(candidate);
        match self.compressed_size(&prompt) {
            Ok(mean) => Ok(mean.total),
            Err(e) => Err(e),
        }
    }

    /// Scores every candidate: the sum of the members' compressed sizes of
    /// `tokens` extended by it. The candidates are scored in parallel.
    pub fn candidate_sizes(&self, tokens: &Vec<Token>) -> (sizes: Result<
        Vec<(Token, usize)>,
        ClmError,
    >)
        ensures
            match sizes {
                Ok(s) => self.measures_candidates(tokens@) && self.scores(tokens@, s@),
                Err(e) => !self.measures_candidates(tokens@) && e == ClmError::CorruptModel,
            },
    {
        proof {
            use_type_invariant(self);
        }
        let last: Token = self.models[0].get_tokenizer().get_max_token();
        let candidates = count_up_to(last);
        let score = |candidate: &Token| -> (size: Result<usize, ClmError>)
            ensures
                size matches Ok(n) ==> measurable(self.members(), tokens@.push(*candidate)) && n
                    == sizes_sum(self.members(), tokens@.push(*candidate)),
                size matches Err(e) ==> !measurable(self.members(), tokens@.push(*candidate))
                    && e == ClmError::CorruptModel,
            { self.candidate_size(tokens, *candidate) };
        let scored = parallel_map(&candidates, score);
        let mut sizes: Vec<(Token, usize)> = Vec::new();
        let mut t: usize = 0;
        while t < scored.len()
            invariant
                t <= scored.len(),
                scored.len() == candidates.len(),
                candidates.len() == last + 1,
                last + 1 == self.vocabulary(),
                forall|i: int| 0 <= i <= last ==> #[trigger] candidates@[i] == i,
                forall|i: int|
                    0 <= i < candidates.len() ==> call_ensures(
                        score,
                        (&candidates@[i],),
                        #[trigger] scored@[i],
                    ),
                forall|c: &Token, r: Result<usize, ClmError>| #[trigger]
                    call_ensures(score, (c,), r) ==> {
                        &&& r matches Ok(n) ==> measurable(self.members(), tokens@.push(*c)) && n
                            == sizes_sum(self.members(), tokens@.push(*c))
                        &&& r matches Err(e) ==> !measurable(self.members(), tokens@.push(*c))
                            && e == ClmError::CorruptModel
                    },
                sizes.len() == t,
                forall|k: int|
                    0 <= k < t ==> {
                        &&& (#[trigger] sizes@[k]).0 == k
                        &&& measurable(self.members(), tokens@.push(k as Token))
                        &&& sizes@[k].1 == sizes_sum(self.members(), tokens@.push(k as Token))
                    },
            decreases scored.len() - t,
        {
            proof {
                assert(call_ensures(score, (&candidates@[t as int],), scored@[t as int]));
            }
            match scored[t] {
                Ok(size) => {
                    sizes.push((t, size));
                },
                Err(e) => {
                    proof {
                        assert(!measurable(self.members(), tokens@.push(t as int as Token)));
                    }
                    return Err(e);
                },
            }
            t += 1;
        }
        proof {
            assert(sizes@.len() == self.vocabulary());
            assert forall|k: int| 0 <= k < self.vocabulary() implies #[trigger] measurable(
                self.members(),
                tokens@.push(k as Token),
            ) by {
                assert(sizes@[k].0 == k);
            }
            assert forall|k: int| 0 <= k < sizes@.len() implies {
                &&& (#[trigger] sizes@[k]).0 == k
                &&& all_accept(self.members(), tokens@.push(k as Token))
                &&& sizes@[k].1 == sizes_sum(self.members(), tokens@.push(k as Token))
            } by {
                assert(measurable(self.members(), tokens@.push(k as Token)));
            }
        }
        Ok(sizes)
    }

    /// The `limit` cheapest candidates to follow `tokens`, the cheapest first,
    /// ties in a random order.
    pub fn top_candidates(&self, tokens: &Vec<Token>, limit: usize) -> (top: Result<
        Vec<(Token, usize)>,
        ClmError,
    >)
        ensures
            match top {
                Ok(list) => self.measures_candidates(tokens@) && exists|all: Seq<(Token, usize)>| #[trigger]
                    self.scores(tokens@, all) && is_top(all, limit as nat, list@),
                Err(e) => !self.measures_candidates(tokens@) && e == ClmError::CorruptModel,
            },
    {
        let mut rng = fresh_generator();
        self.top_candidates_with(tokens, limit, &mut rng)
    }

    /// The `limit` cheapest candidates to follow `tokens`, the cheapest first,
    /// ties in an order that the generator decides.
    pub fn top_candidates_with(
        &self,
        tokens: &Vec<Token>,
        limit: usize,
        rng: &mut rand::rngs::StdRng,
    ) -> (top: Result<Vec<(Token, usize)>, ClmError>)
        ensures
            match top {
                Ok(list) => self.measures_candidates(tokens@) && exists|all: Seq<(Token, usize)>| #[trigger]
                    self.scores(tokens@, all) && is_top(all, limit as nat, list@),
                Err(e) => !self.measures_candidates(tokens@) && e == ClmError::CorruptModel,
            },
    {
        match self.candidate_sizes(tokens) {
            Ok(sizes) => {
                let ghost all = sizes@;
                let list = cheapest_with(sizes, limit, rng);
                proof {
                    assert(self.scores(tokens@, all) && is_top(all, limit as nat, list@));
                }
                Ok(list)
            },
            Err(e) => Err(e),
        }
    }

    /// The sizes of `tokens` under each member, as the mean's two parts: their
    /// sum and their number.
    pub fn compressed_size(&self, tokens: &Vec<Token>) -> (mean: Result<Mean, ClmError>)
        ensures
            match mean {
                Ok(m) => {
                    &&& measurable(self.members(), tokens@)
                    &&& m.total == sizes_sum(self.members(), tokens@)
                    &&& m.count == self.members().len()
                },
                Err(e) => !measurable(self.members(), tokens@) && e == ClmError::CorruptModel,
            },
    {
        let mut total: usize = 0;
        let mut i: usize = 0;
        proof {
            assert(self.models@.take(0) =~= Seq::<ClmModel>::empty());
        }
        while i < self.models.len()
            invariant
                i <= self.models.len(),
                all_accept(self.models@.take(i as int), tokens@),
                total == sizes_sum(self.models@.take(i as int), tokens@),
            decreases self.models.len() - i,
        {
            let size: usize = match self.models[i].compress(tokens) {
                Ok(bytes) => bytes.len(),
                Err(e) => {
                    proof {
                        assert(self.models@[i as int].frame(tokens@) is None);
                    }
                    return Err(e);
                },
            };
            proof {
                assert(self.models@.take(i + 1).drop_last() =~= self.models@.take(i as int));
                assert(self.models@.take(i + 1).last() == self.models@[i as int]);
                lemma_sizes_sum_grows(self.models@, tokens@, i + 1);
            }
            total = match total.checked_add(size) {
                Some(sum) => sum,
                None => {
                    return Err(ClmError::CorruptModel);
                },
            };
            proof {
                assert forall|k: int| 0 <= k < i + 1 implies (#[trigger] self.models@.take(
                    i + 1,
                )[k]).frame(tokens@) is Some by {
                    if k < i {
                        assert(self.models@.take(i as int)[k] == self.models@.take(i + 1)[k]);
                    }
                }
            }
            i += 1;
        }
        proof {
            assert(self.models@.take(self.models.len() as int) =~= self.models@);
        }
        Ok(Mean { total, count: self.models.len() })
    }
}

} // verus!
