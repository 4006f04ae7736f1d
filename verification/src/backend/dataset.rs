//! A corpus of tokenized sentences, and the ways to cut it.

use vstd::prelude::*;
use super::lines::{
    msgpack_data, msgpack_decode, msgpack_encode, msgpack_of, regex_replaced, replace_all,
    storable,
};
use super::random::{fresh_generator, random_token, shuffle_items};
use super::ratio::Ratio;
use super::sequences::{
    append_copy, copy_all, copy_range, lemma_same_items_mapped, lemma_total_tokens_is_flat_length,
    lemma_total_tokens_push, parallel_map, sentences, total_tokens,
};
use super::tokenizer::{ids_as_tokens, p50k_ids, tokens_of, ClmTokenizer, LONGEST_TEXT};
use super::{ClmError, Token};

verus! {

/// The dataset cut down to `budget` tokens: whole sentences as long as they
/// fit, then the start of the first one that does not, if any budget is left.
pub open spec fn shrunk(data: Seq<Seq<Token>>, budget: nat) -> Seq<Seq<Token>>
    decreases data.len(),
{
    if data.len() == 0 {
        Seq::empty()
    } else if data[0].len() <= budget {
        seq![data[0]] + shrunk(data.skip(1), (budget - data[0].len()) as nat)
    } else if budget == 0 {
        Seq::empty()
    } else {
        seq![data[0].take(budget as int)]
    }
}

/// The sentences joined from the left: a sentence is appended to the one
/// before it as long as that one is shorter than `chunk_size`.
pub open spec fn joined(data: Seq<Seq<Token>>, chunk_size: nat) -> Seq<Seq<Token>>
    decreases data.len(),
{
    if data.len() == 0 {
        Seq::empty()
    } else {
        let before = joined(data.drop_last(), chunk_size);
        let line = data.last();
        if before.len() == 0 {
            seq![line]
        } else if before.last().len() < chunk_size {
            before.drop_last().push(before.last() + line)
        } else {
            before.push(line)
        }
    }
}

/// `amount` divided by `parts`, rounded up.
pub open spec fn divided_up(amount: nat, parts: nat) -> nat
    recommends
        parts > 0,
{
    if amount % parts == 0 {
        amount / parts
    } else {
        amount / parts + 1
    }
}

/// Where chunk `j` starts in a dataset of `amount` sentences that is cut into
/// chunks of `size` sentences: behind the chunks before it, and at the end
/// once the sentences have run out.
pub open spec fn chunk_start(amount: nat, size: nat, j: int) -> int {
    if j * size <= amount {
        j * size
    } else {
        amount as int
    }
}

/// Chunk `j` of a dataset cut into chunks of `size` sentences: `size`
/// sentences from where it starts, or what is left where they are fewer.
pub open spec fn chunk(data: Seq<Seq<Token>>, size: nat, j: int) -> Seq<Seq<Token>> {
    let start = chunk_start(data.len(), size, j);
    let end = if start + size <= data.len() {
        start + size
    } else {
        data.len() as int
    };
    data.subrange(start, end)
}

/// Whether `chunks` is `data` cut into `chunk_count` parts: contiguous chunks
/// of the sentence count divided by `chunk_count`, rounded up. The last chunk
/// that gets a sentence holds what is left, and the chunks behind it are
/// empty.
pub open spec fn is_chunking(
    data: Seq<Seq<Token>>,
    chunk_count: nat,
    chunks: Seq<Seq<Seq<Token>>>,
) -> bool {
    let size = divided_up(data.len(), chunk_count);
    &&& chunks.len() == chunk_count
    &&& forall|j: int| 0 <= j < chunks.len() ==> #[trigger] chunks[j] == chunk(data, size, j)
}

/// The sentences of each dataset in a list.
pub open spec fn datasets(list: Seq<Dataset>) -> Seq<Seq<Seq<Token>>> {
    list.map_values(|d: Dataset| d@)
}

/// The text of each line.
pub open spec fn texts(lines: Seq<String>) -> Seq<Seq<char>> {
    lines.map_values(|line: String| line@)
}

/// The pattern of the index that a corpus line may start with: a run of
/// digits at the start of the line, and one white-space character behind it.
pub open spec fn index_pattern() -> Seq<char> {
    "^\\d+\\s"@
}

/// The line without its index: the line with what matches the index pattern
/// replaced by nothing.
pub open spec fn line_without_index(line: Seq<char>) -> Seq<char> {
    match regex_replaced(index_pattern(), line, ""@) {
        Some(rest) => rest,
        None => line,
    }
}

/// Whether the line, without its index, is short enough to be tokenized.
pub open spec fn fits(line: Seq<char>) -> bool {
    line_without_index(line).len() <= LONGEST_TEXT
}

/// Whether every line is short enough to be tokenized.
pub open spec fn all_fit(lines: Seq<Seq<char>>) -> bool {
    forall|i: int| 0 <= i < lines.len() ==> fits(#[trigger] lines[i])
}

/// The tokens of a corpus line: the line without its index, tokenized with the
/// standard vocabulary.
pub open spec fn tokens_of_line(line: Seq<char>) -> Seq<Token> {
    ids_as_tokens(p50k_ids(line_without_index(line)))
}

/// The sentence of a corpus line: its tokens, and none where it is too long to
/// be tokenized.
pub open spec fn sentence_of_line(line: Seq<char>) -> Option<Seq<Token>> {
    if fits(line) {
        Some(tokens_of_line(line))
    } else {
        None
    }
}

/// The sentences of the lines, in order, without those that come out empty.
pub open spec fn tokenized(lines: Seq<Seq<char>>) -> Seq<Seq<Token>>
    decreases lines.len(),
{
    if lines.len() == 0 {
        Seq::empty()
    } else {
        let before = tokenized(lines.drop_last());
        let sentence = tokens_of_line(lines.last());
        if sentence.len() == 0 {
            before
        } else {
            before.push(sentence)
        }
    }
}

/// Putting a sentence in front adds its tokens.
pub proof fn lemma_total_tokens_prepend(sentence: Seq<Token>, data: Seq<Seq<Token>>)
    ensures
        total_tokens(seq![sentence] + data) == sentence.len() + total_tokens(data),
    decreases data.len(),
{
    let all = seq![sentence] + data;
    if data.len() == 0 {
        assert(all.drop_last() =~= Seq::<Seq<Token>>::empty());
        assert(total_tokens(all.drop_last()) == 0);
    } else {
        lemma_total_tokens_prepend(sentence, data.drop_last());
        assert(all.drop_last() =~= seq![sentence] + data.drop_last());
        assert(all.last() == data.last());
    }
}

/// A shrunk dataset holds as many tokens as the budget allows: the budget, or
/// all there are where they are fewer.
pub proof fn lemma_shrunk_total(data: Seq<Seq<Token>>, budget: nat)
    ensures
        total_tokens(shrunk(data, budget)) == if budget <= total_tokens(data) {
            budget
        } else {
            total_tokens(data)
        },
    decreases data.len(),
{
    if data.len() == 0 {
    } else {
        let first = data[0];
        let rest = data.skip(1);
        assert(data =~= seq![first] + rest);
        lemma_total_tokens_prepend(first, rest);
        if first.len() <= budget {
            let left = (budget - first.len()) as nat;
            lemma_shrunk_total(rest, left);
            lemma_total_tokens_prepend(first, shrunk(rest, left));
        } else if budget == 0 {
        } else {
            let cut = first.take(budget as int);
            lemma_total_tokens_push(Seq::<Seq<Token>>::empty(), cut);
            assert(Seq::<Seq<Token>>::empty().push(cut) =~= seq![cut]);
            assert(total_tokens(Seq::<Seq<Token>>::empty()) == 0);
        }
    }
}

/// A shrunk dataset is a prefix of the dataset, token by token.
pub proof fn lemma_shrunk_is_prefix(data: Seq<Seq<Token>>, budget: nat)
    ensures
        shrunk(data, budget).flatten().is_prefix_of(data.flatten()),
    decreases data.len(),
{
    if data.len() == 0 {
    } else {
        let first = data[0];
        let rest = data.skip(1);
        assert(data =~= seq![first] + rest);
        vstd::seq_lib::lemma_flatten_concat(seq![first], rest);
        seq![first].lemma_flatten_one_element();
        assert(seq![first].first() == first);
        if first.len() <= budget {
            let left = (budget - first.len()) as nat;
            lemma_shrunk_is_prefix(rest, left);
            vstd::seq_lib::lemma_flatten_concat(seq![first], shrunk(rest, left));
            let a = shrunk(rest, left).flatten();
            let b = rest.flatten();
            assert((first + a).is_prefix_of(first + b)) by {
                assert(a =~= b.subrange(0, a.len() as int));
                assert((first + a) =~= (first + b).subrange(0, (first + a).len() as int));
            }
        } else if budget == 0 {
            assert(shrunk(data, budget).flatten() =~= Seq::<Token>::empty());
        } else {
            let cut = first.take(budget as int);
            seq![cut].lemma_flatten_one_element();
            assert(seq![cut].first() == cut);
            assert(cut =~= (first + rest.flatten()).subrange(0, cut.len() as int));
        }
    }
}

/// After joining, every sentence but the last has at least `chunk_size` tokens.
pub proof fn lemma_joined_lengths(data: Seq<Seq<Token>>, chunk_size: nat)
    ensures
        forall|i: int|
            0 <= i < joined(data, chunk_size).len() - 1 ==> (#[trigger] joined(
                data,
                chunk_size,
            )[i]).len() >= chunk_size,
    decreases data.len(),
{
    if data.len() > 0 {
        let before = joined(data.drop_last(), chunk_size);
        let after = joined(data, chunk_size);
        lemma_joined_lengths(data.drop_last(), chunk_size);
        assert forall|i: int| 0 <= i < after.len() - 1 implies (#[trigger] after[i]).len()
            >= chunk_size by {
            if before.len() == 0 {
            } else if before.last().len() < chunk_size {
                assert(after[i] == before[i]);
            } else {
                if i < before.len() - 1 {
                    assert(after[i] == before[i]);
                } else {
                    assert(after[i] == before.last());
                }
            }
        }
    }
}

/// Joining moves no token: the sentences laid end to end are what they were.
pub proof fn lemma_joined_flat(data: Seq<Seq<Token>>, chunk_size: nat)
    ensures
        joined(data, chunk_size).flatten() == data.flatten(),
    decreases data.len(),
{
    if data.len() == 0 {
    } else {
        let front = data.drop_last();
        let line = data.last();
        let before = joined(front, chunk_size);
        lemma_joined_flat(front, chunk_size);
        assert(data =~= front.push(line));
        front.lemma_flatten_push(line);
        if before.len() == 0 {
            assert(before.flatten() =~= Seq::<Token>::empty());
            seq![line].lemma_flatten_one_element();
            assert(seq![line].first() == line);
            assert(front.flatten() + line =~= line);
        } else if before.last().len() < chunk_size {
            let head = before.drop_last();
            assert(before =~= head.push(before.last()));
            head.lemma_flatten_push(before.last());
            head.lemma_flatten_push(before.last() + line);
            assert(head.flatten() + (before.last() + line) =~= (head.flatten() + before.last())
                + line);
        } else {
            before.lemma_flatten_push(line);
        }
    }
}

/// No sentence of a tokenized corpus is empty.
pub proof fn lemma_tokenized_not_empty(lines: Seq<Seq<char>>)
    ensures
        forall|i: int| 0 <= i < tokenized(lines).len() ==> (#[trigger] tokenized(lines)[i]).len() > 0,
    decreases lines.len(),
{
    if lines.len() > 0 {
        let before = tokenized(lines.drop_last());
        let after = tokenized(lines);
        lemma_tokenized_not_empty(lines.drop_last());
        assert forall|i: int| 0 <= i < after.len() implies (#[trigger] after[i]).len() > 0 by {
            if i < before.len() {
                assert(after[i] == before[i]);
            }
        }
    }
}

/// Parts of the amount divided by their number, rounded up, cover the amount:
/// together they are no smaller, and none of them is empty where there is
/// something to divide.
pub proof fn lemma_divided_up_covers(amount: nat, parts: nat)
    requires
        parts > 0,
    ensures
        parts * divided_up(amount, parts) >= amount,
        amount > 0 ==> divided_up(amount, parts) > 0,
{
    let size = divided_up(amount, parts);
    let q = amount / parts;
    let r = amount % parts;
    vstd::arithmetic::div_mod::lemma_fundamental_div_mod(amount as int, parts as int);
    assert(amount == parts * q + r);
    assert(parts * size >= amount && (amount > 0 ==> size > 0)) by (nonlinear_arith)
        requires
            amount == parts * q + r,
            0 <= r < parts,
            0 <= q,
            size == if r == 0 {
                q
            } else {
                q + 1
            },
    ;
}

/// Copies the sentences from `from` up to `to`.
fn copy_sentences(data: &Vec<Vec<Token>>, from: usize, to: usize) -> (copy: Vec<Vec<Token>>)
    requires
        from <= to <= data.len(),
    ensures
        sentences(copy@) == sentences(data@).subrange(from as int, to as int),
{
    let mut copy: Vec<Vec<Token>> = Vec::new();
    let mut i: usize = from;
    while i < to
        invariant
            from <= i <= to <= data.len(),
            copy.len() == i - from,
            sentences(copy@) == sentences(data@).subrange(from as int, i as int),
        decreases to - i,
    {
        let ghost before = copy@;
        let sentence = copy_all(&data[i]);
        copy.push(sentence);
        proof {
            let want = sentences(data@).subrange(from as int, i + 1);
            let have = sentences(copy@);
            assert(have.len() == copy@.len());
            assert(sentences(data@).len() == data@.len());
            assert(have.len() == want.len());
            assert forall|k: int| 0 <= k < have.len() implies have[k] == want[k] by {
                if k < before.len() {
                    assert(copy@[k] == before[k]);
                    assert(sentences(before)[k] == sentences(data@).subrange(
                        from as int,
                        i as int,
                    )[k]);
                }
            }
            assert(have =~= want);
        }
        i += 1;
    }
    copy
}

/// An ordered list of sentences, each a sequence of tokens.
#[derive(Debug, Clone)]
pub struct Dataset {
    data: Vec<Vec<Token>>,
}

impl View for Dataset {
    type V = Seq<Seq<Token>>;

    closed spec fn view(&self) -> Seq<Seq<Token>> {
        sentences(self.data@)
    }
}

impl Dataset {
    /// The dataset of the given sentences, in their order.
    pub fn from_data(data: Vec<Vec<Token>>) -> (dataset: Dataset)
        ensures
            dataset@ == sentences(data@),
    {
        Dataset { data }
    }

    /// The sentences.
    pub fn get_data(&self) -> (data: &Vec<Vec<Token>>)
        ensures
            sentences(data@) == self@,
    {
        &self.data
    }

    /// The sentences, handed over.
    pub fn get_data_out(self) -> (data: Vec<Vec<Token>>)
        ensures
            sentences(data@) == self@,
    {
        self.data
    }

    /// The dataset without a sentence.
    pub fn empty() -> (dataset: Dataset)
        ensures
            dataset@ == Seq::<Seq<Token>>::empty(),
    {
        let dataset = Dataset { data: Vec::new() };
        proof {
            assert(dataset@ =~= Seq::<Seq<Token>>::empty());
        }
        dataset
    }

    /// A copy of the dataset.
    pub fn duplicate(&self) -> (copy: Dataset)
        ensures
            copy@ == self@,
    {
        let copy = Dataset { data: copy_sentences(&self.data, 0, self.data.len()) };
        proof {
            assert(self@.subrange(0, self@.len() as int) =~= self@);
        }
        copy
    }

    /// The number of sentences.
    pub fn len(&self) -> (count: usize)
        ensures
            count == self@.len(),
    {
        self.data.len()
    }

    /// Splits the dataset in two at `train_size` of its sentences, rounded to
    /// the nearest sentence: the first part, then the rest.
    pub fn split_train_test(&self, train_size: Ratio) -> (parts: (Dataset, Dataset))
        ensures
            parts.0@ == self@.take(train_size.rounded_of(self@.len()) as int),
            parts.1@ == self@.skip(train_size.rounded_of(self@.len()) as int),
            parts.0@.len() + parts.1@.len() == self@.len(),
            parts.0@ + parts.1@ == self@,
    {
        let cut: usize = train_size.round(self.data.len());
        let train = copy_sentences(&self.data, 0, cut);
        let test = copy_sentences(&self.data, cut, self.data.len());
        let parts = (Dataset { data: train }, Dataset { data: test });
        proof {
            assert(parts.0@ =~= self@.take(cut as int));
            assert(parts.1@ =~= self@.skip(cut as int));
            assert(parts.0@ + parts.1@ =~= self@);
        }
        parts
    }

    /// Puts the sentences in a random order.
    pub fn shuffle(&mut self)
        ensures
            final(self)@.to_multiset() == old(self)@.to_multiset(),
    {
        let mut rng = fresh_generator();
        self.shuffle_with(&mut rng);
    }

    /// Puts the sentences in a random order, drawn from the generator.
    pub fn shuffle_with(&mut self, rng: &mut rand::rngs::StdRng)
        ensures
            final(self)@.to_multiset() == old(self)@.to_multiset(),
    {
        let ghost before = self.data@;
        shuffle_items(&mut self.data, rng);
        proof {
            lemma_same_items_mapped(self.data@, before, |sentence: Vec<Token>| sentence@);
        }
    }

    /// The dataset cut down to `tokens` tokens: a prefix of it, the last
    /// sentence cut short where needed. It holds `tokens` tokens, or all there
    /// are where they are fewer, and they are the first tokens of the dataset.
    pub fn shrink_to_size(&self, tokens: usize) -> (dataset: Dataset)
        ensures
            dataset@ == shrunk(self@, tokens as nat),
            total_tokens(dataset@) == if tokens <= total_tokens(self@) {
                tokens as nat
            } else {
                total_tokens(self@)
            },
            dataset@.flatten() == self@.flatten().take(total_tokens(dataset@) as int),
    {
        let mut new_dataset: Vec<Vec<Token>> = Vec::new();
        let mut remaining: usize = tokens;
        let mut done: bool = false;
        let mut i: usize = 0;
        proof {
            assert(self@.skip(0) =~= self@);
            assert(sentences(new_dataset@) + shrunk(self@, tokens as nat) =~= shrunk(
                self@,
                tokens as nat,
            ));
        }
        while i < self.data.len() && !done
            invariant
                i <= self.data.len(),
                self@ == sentences(self.data@),
                !done ==> sentences(new_dataset@) + shrunk(self@.skip(i as int), remaining as nat)
                    == shrunk(self@, tokens as nat),
                done ==> sentences(new_dataset@) == shrunk(self@, tokens as nat),
            decreases self.data.len() - i,
        {
            let line = &self.data[i];
            let ghost rest = self@.skip(i as int);
            let ghost so_far = sentences(new_dataset@);
            proof {
                assert(rest[0] == line@);
                assert(rest.skip(1) =~= self@.skip(i + 1));
            }
            if line.len() <= remaining {
                new_dataset.push(copy_all(line));
                remaining = remaining - line.len();
                proof {
                    assert(sentences(new_dataset@) =~= so_far.push(line@));
                    assert(so_far.push(line@) + shrunk(self@.skip(i + 1), remaining as nat)
                        =~= so_far + (seq![line@] + shrunk(
                        self@.skip(i + 1),
                        remaining as nat,
                    )));
                }
            } else if remaining == 0 {
                done = true;
                proof {
                    assert(so_far + Seq::<Seq<Token>>::empty() =~= so_far);
                }
            } else {
                new_dataset.push(copy_range(line, 0, remaining));
                done = true;
                proof {
                    assert(line@.subrange(0, remaining as int) =~= line@.take(remaining as int));
                    assert(sentences(new_dataset@) =~= so_far.push(line@.take(remaining as int)));
                    assert(so_far.push(line@.take(remaining as int)) =~= so_far
                        + seq![line@.take(remaining as int)]);
                }
            }
            i += 1;
        }
        proof {
            if !done {
                assert(self@.skip(i as int) =~= Seq::<Seq<Token>>::empty());
                assert(sentences(new_dataset@) + Seq::<Seq<Token>>::empty() =~= sentences(
                    new_dataset@,
                ));
            }
            lemma_shrunk_total(self@, tokens as nat);
            lemma_shrunk_is_prefix(self@, tokens as nat);
            lemma_total_tokens_is_flat_length(shrunk(self@, tokens as nat));
            assert(shrunk(self@, tokens as nat).flatten() =~= self@.flatten().take(
                total_tokens(shrunk(self@, tokens as nat)) as int,
            ));
        }
        Dataset { data: new_dataset }
    }

    /// Joins adjacent sentences until each, but perhaps the last, has at least
    /// `chunk_size` tokens.
    pub fn join_lines(self, chunk_size: usize) -> (dataset: Dataset)
        ensures
            dataset@ == joined(self@, chunk_size as nat),
            forall|i: int| 0 <= i < dataset@.len() - 1 ==> (#[trigger] dataset@[i]).len() >= chunk_size,
            dataset@.flatten() == self@.flatten(),
    {
        let mut acc: Vec<Vec<Token>> = Vec::new();
        let mut i: usize = 0;
        proof {
            assert(self@.take(0) =~= Seq::<Seq<Token>>::empty());
            assert(sentences(acc@) =~= Seq::<Seq<Token>>::empty());
        }
        while i < self.data.len()
            invariant
                i <= self.data.len(),
                self@ == sentences(self.data@),
                sentences(acc@) == joined(self@.take(i as int), chunk_size as nat),
            decreases self.data.len() - i,
        {
            let line = copy_all(&self.data[i]);
            let ghost before = sentences(acc@);
            proof {
                assert(self@.take(i + 1).drop_last() =~= self@.take(i as int));
                assert(self@.take(i + 1).last() == line@);
            }
            if acc.len() == 0 {
                acc.push(line);
                proof {
                    assert(sentences(acc@) =~= seq![line@]);
                }
            } else if acc[acc.len() - 1].len() < chunk_size {
                let mut last = acc.pop().unwrap();
                proof {
                    assert(last@ == before.last());
                    assert(sentences(acc@) =~= before.drop_last());
                }
                append_copy(&mut last, &line);
                acc.push(last);
                proof {
                    assert(sentences(acc@) =~= before.drop_last().push(before.last() + line@));
                }
            } else {
                acc.push(line);
                proof {
                    assert(before.last() == acc@[acc.len() - 2]@);
                    assert(sentences(acc@) =~= before.push(line@));
                }
            }
            i += 1;
        }
        proof {
            assert(self@.take(self.data.len() as int) =~= self@);
            lemma_joined_lengths(self@, chunk_size as nat);
            lemma_joined_flat(self@, chunk_size as nat);
        }
        Dataset { data: acc }
    }

    /// Cuts the dataset into `chunk_count` parts: contiguous chunks of the
    /// sentence count divided by `chunk_count`, rounded up. The chunks laid end
    /// to end are the dataset. Where the sentences run out before the parts
    /// do, the last parts are empty.
    pub fn split_into_chunks(&self, chunk_count: usize) -> (chunks: Result<Vec<Dataset>, ClmError>)
        ensures
            match chunks {
                Ok(list) => {
                    &&& self@.len() > 0
                    &&& chunk_count > 0
                    &&& list.len() == chunk_count
                    &&& is_chunking(self@, chunk_count as nat, datasets(list@))
                    &&& datasets(list@).flatten() == self@
                },
                Err(e) => if self@.len() == 0 {
                    e == ClmError::EmptyInput
                } else {
                    chunk_count == 0 && e == ClmError::InvalidOptions
                },
            },
    {
        let n: usize = self.data.len();
        if n == 0 {
            return Err(ClmError::EmptyInput);
        }
        if chunk_count == 0 {
            return Err(ClmError::InvalidOptions);
        }
        proof {
            lemma_divided_up_covers(n as nat, chunk_count as nat);
        }
        let size: usize = if n % chunk_count == 0 {
            n / chunk_count
        } else {
            assert(n / chunk_count < n) by (nonlinear_arith)
                requires
                    n % chunk_count != 0,
                    chunk_count > 0,
                    n > 0,
            ;
            n / chunk_count + 1
        };
        assert(size == divided_up(n as nat, chunk_count as nat));
        let mut list: Vec<Dataset> = Vec::new();
        let mut start: usize = 0;
        proof {
            assert(datasets(list@) =~= Seq::<Seq<Seq<Token>>>::empty());
            assert(datasets(list@).flatten() =~= self@.take(0));
            assert(0 * size == 0) by (nonlinear_arith);
        }
        while list.len() < chunk_count
            invariant
                n == self.data.len(),
                n == self@.len(),
                self@ == sentences(self.data@),
                size > 0,
                chunk_count * size >= n,
                list.len() <= chunk_count,
                start <= n,
                start == chunk_start(n as nat, size as nat, list.len() as int),
                forall|j: int|
                    0 <= j < list.len() ==> (#[trigger] datasets(list@)[j]) == chunk(
                        self@,
                        size as nat,
                        j,
                    ),
                datasets(list@).flatten() == self@.take(start as int),
            decreases chunk_count - list.len(),
        {
            let end: usize = if n - start <= size {
                n
            } else {
                start + size
            };
            let part = Dataset { data: copy_sentences(&self.data, start, end) };
            let ghost before = datasets(list@);
            let ghost j = list.len() as int;
            proof {
                assert(part@ == chunk(self@, size as nat, j));
                assert((j + 1) * size == j * size + size) by (nonlinear_arith);
                assert(end == chunk_start(n as nat, size as nat, j + 1));
                before.lemma_flatten_push(part@);
                assert(self@.take(start as int) + self@.subrange(start as int, end as int)
                    =~= self@.take(end as int));
            }
            list.push(part);
            proof {
                assert(datasets(list@) =~= before.push(part@));
            }
            start = end;
        }
        proof {
            assert(start == n);
            assert(self@.take(n as int) =~= self@);
        }
        Ok(list)
    }

    /// The tokens of `text` in the standard vocabulary, or `None` where the
    /// text is too long to be tokenized.
    pub fn tokenize(text: &str) -> (tokens: Option<Vec<Token>>)
        ensures
            tokens_of(tokens) == if text@.len() <= LONGEST_TEXT {
                Some(ids_as_tokens(p50k_ids(text@)))
            } else {
                None
            },
    {
        ClmTokenizer::GPT2.encode(text)
    }

    /// The text of `tokens` in the standard vocabulary, or the error text
    /// where they cannot be decoded.
    pub fn detokenize(tokens: Vec<Token>) -> (text: String)
        ensures
            text@ == ClmTokenizer::GPT2.decoding(tokens@),
    {
        ClmTokenizer::GPT2.decode(&tokens)
    }

    /// The sentence of one corpus line: the line without its index, tokenized
    /// with the standard vocabulary, or `None` where that is too long to be
    /// tokenized.
    pub fn sentence_from_line(line: &String) -> (sentence: Option<Vec<Token>>)
        ensures
            tokens_of(sentence) == sentence_of_line(line@),
    {
        match replace_all("^\\d+\\s", line.as_str(), "") {
            Some(stripped) => Self::tokenize(stripped.as_str()),
            None => Self::tokenize(line.as_str()),
        }
    }

    /// The dataset of a corpus: each line without its index, tokenized; lines
    /// that come out empty dropped; the sentences in a random order. The lines
    /// are tokenized in parallel. A line that is too long to be tokenized is
    /// refused, and the corpus with it.
    pub fn compute_from_lines(lines: &Vec<String>) -> (dataset: Result<Dataset, ClmError>)
        ensures
            match dataset {
                Ok(d) => {
                    &&& all_fit(texts(lines@))
                    &&& d@.to_multiset() == tokenized(texts(lines@)).to_multiset()
                    &&& forall|i: int| 0 <= i < d@.len() ==> (#[trigger] d@[i]).len() > 0
                },
                Err(e) => !all_fit(texts(lines@)) && e == ClmError::InvalidOptions,
            },
    {
        let to_sentence = |line: &String| -> (sentence: Option<Vec<Token>>)
            ensures
                tokens_of(sentence) == sentence_of_line(line@),
            { Self::sentence_from_line(line) };
        let all = parallel_map(lines, to_sentence);
        let mut data: Vec<Vec<Token>> = Vec::new();
        let mut i: usize = 0;
        proof {
            assert(texts(lines@).take(0) =~= Seq::<Seq<char>>::empty());
            assert(sentences(data@) =~= Seq::<Seq<Token>>::empty());
        }
        while i < all.len()
            invariant
                i <= all.len(),
                all.len() == lines.len(),
                forall|k: int|
                    0 <= k < lines.len() ==> call_ensures(
                        to_sentence,
                        (&lines@[k],),
                        #[trigger] all@[k],
                    ),
                forall|line: &String, sentence: Option<Vec<Token>>| #[trigger]
                    call_ensures(to_sentence, (line,), sentence) ==> tokens_of(sentence)
                        == sentence_of_line(line@),
                all_fit(texts(lines@).take(i as int)),
                sentences(data@) == tokenized(texts(lines@).take(i as int)),
            decreases all.len() - i,
        {
            let ghost before = sentences(data@);
            proof {
                assert(call_ensures(to_sentence, (&lines@[i as int],), all@[i as int]));
                assert(texts(lines@).take(i + 1).drop_last() =~= texts(lines@).take(i as int));
                assert(texts(lines@).take(i + 1).last() == lines@[i as int]@);
                assert(tokens_of(all@[i as int]) == sentence_of_line(lines@[i as int]@));
                assert(texts(lines@)[i as int] == lines@[i as int]@);
            }
            match &all[i] {
                Some(tokens) => {
                    proof {
                        assert forall|k: int| 0 <= k < i + 1 implies fits(
                            #[trigger] texts(lines@).take(i + 1)[k],
                        ) by {
                            if k < i {
                                assert(texts(lines@).take(i as int)[k] == texts(lines@).take(
                                    i + 1,
                                )[k]);
                            }
                        }
                    }
                    if tokens.len() > 0 {
                        let sentence = copy_all(tokens);
                        data.push(sentence);
                        proof {
                            assert(sentences(data@) =~= before.push(sentence@));
                        }
                    }
                },
                None => {
                    proof {
                        assert(!fits(texts(lines@)[i as int]));
                    }
                    return Err(ClmError::InvalidOptions);
                },
            }
            i += 1;
        }
        proof {
            assert(texts(lines@).take(lines.len() as int) =~= texts(lines@));
        }
        let mut dataset = Dataset { data };
        let ghost ordered = dataset@;
        dataset.shuffle();
        proof {
            broadcast use vstd::seq_lib::group_to_multiset_ensures;

            lemma_tokenized_not_empty(texts(lines@));
            dataset@.to_multiset_ensures();
            ordered.to_multiset_ensures();
            assert forall|k: int| 0 <= k < dataset@.len() implies (#[trigger] dataset@[k]).len()
                > 0 by {
                let s = dataset@[k];
                assert(dataset@.contains(s));
                assert(ordered.to_multiset().count(s) > 0);
                assert(ordered.contains(s));
            }
        }
        Ok(dataset)
    }

    /// The stored form of the dataset, or `Parse` where it cannot be written:
    /// where it has more sentences, or a sentence has more tokens, than the
    /// stored form can count, or where the writer reports an error.
    pub fn to_bytes(&self) -> (bytes: Result<Vec<u8>, ClmError>)
        ensures
            match bytes {
                Ok(b) => storable(self@) && msgpack_of(self@) == Some(b@),
                Err(e) => (!storable(self@) || msgpack_of(self@) is None) && e
                    == ClmError::Parse,
            },
    {
        if self.data.len() > u32::MAX as usize {
            return Err(ClmError::Parse);
        }
        let mut i: usize = 0;
        while i < self.data.len()
            invariant
                i <= self.data.len(),
                self@ == sentences(self.data@),
                forall|k: int| 0 <= k < i ==> (#[trigger] self@[k]).len() <= u32::MAX,
            decreases self.data.len() - i,
        {
            if self.data[i].len() > u32::MAX as usize {
                proof {
                    assert(self@[i as int].len() > u32::MAX);
                }
                return Err(ClmError::Parse);
            }
            proof {
                assert(self@[i as int] == self.data@[i as int]@);
            }
            i += 1;
        }
        match msgpack_encode(&self.data) {
            Some(b) => Ok(b),
            None => Err(ClmError::Parse),
        }
    }

    /// The dataset that `bytes` is the stored form of, or `Parse` where they
    /// are the stored form of none. The bytes that `to_bytes` gave for a
    /// dataset give that dataset.
    pub fn from_bytes(bytes: &Vec<u8>) -> (dataset: Result<Dataset, ClmError>)
        ensures
            match dataset {
                Ok(d) => msgpack_data(bytes@) == Some(d@),
                Err(e) => msgpack_data(bytes@) is None && e == ClmError::Parse,
            },
            forall|stored: Seq<Seq<Token>>|
                storable(stored) && #[trigger] msgpack_of(stored) == Some(bytes@) ==> (
                dataset matches Ok(d) && d@ == stored),
    {
        match msgpack_decode(bytes) {
            Some(data) => Ok(Dataset { data }),
            None => Err(ClmError::Parse),
        }
    }

    /// Twenty sentences of a hundred random tokens each.
    pub fn test_dataset() -> (dataset: Dataset)
        ensures
            dataset@.len() == 20,
            forall|i: int| 0 <= i < 20 ==> (#[trigger] dataset@[i]).len() == 100,
    {
        let mut data: Vec<Vec<Token>> = Vec::new();
        let mut i: usize = 0;
        while i < 20
            invariant
                i <= 20,
                data.len() == i,
                forall|k: int| 0 <= k < i ==> (#[trigger] data@[k])@.len() == 100,
            decreases 20 - i,
        {
            let mut sentence: Vec<Token> = Vec::new();
            let mut k: usize = 0;
            while k < 100
                invariant
                    k <= 100,
                    sentence.len() == k,
                decreases 100 - k,
            {
                sentence.push(random_token());
                k += 1;
            }
            data.push(sentence);
            i += 1;
        }
        Dataset { data }
    }
}

} // verus!
