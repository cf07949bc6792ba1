//! Around the embedding model: what it is handed and which of its numbers are kept.
use vstd::prelude::*;
use crate::config::QUERY_PREFIX;
use crate::number::{decimal, decimal_digits, decimal_reads_back, value_of};
use crate::text::{chars_of, push_str, same_str, string_of};

verus! {

/// A query as the model is asked it. Documents go in as they are.
pub fn prefixed_query(query: &str) -> (out: String)
    ensures
        out@ == QUERY_PREFIX@ + query@,
{
    let mut out = chars_of(QUERY_PREFIX);
    push_str(&mut out, query);
    string_of(out.as_slice())
}

/// The digits of a number: all of a text, or what stands behind a plus.
pub open spec fn digits_of(s: Seq<char>) -> Seq<char> {
    if s.len() > 1 && s[0] == '+' {
        s.skip(1)
    } else {
        s
    }
}

/// Digits alone, and at least one.
pub open spec fn all_digits(s: Seq<char>) -> bool {
    s.len() > 0 && forall|i: int|
        0 <= i < s.len() ==> '0' as int <= (#[trigger] s[i]) as int <= '9' as int
}

/// The number that a text stands for, where it stands for one that can be held.
pub open spec fn parsed(s: Seq<char>) -> Option<int> {
    if all_digits(digits_of(s)) && value_of(digits_of(s)) <= usize::MAX {
        Some(value_of(digits_of(s)))
    } else {
        None
    }
}

proof fn value_grows(s: Seq<char>, k: int)
    requires
        0 <= k <= s.len(),
        all_digits(s),
    ensures
        0 <= value_of(s.take(k)) <= value_of(s),
    decreases s.len() - k,
{
    if k < s.len() {
        value_grows(s, k + 1);
        let more = s.take(k + 1);
        assert(more.drop_last() =~= s.take(k));
        value_is_natural(s, k);
        assert(more.last() == s[k]);
    } else {
        assert(s.take(k) =~= s);
        value_is_natural(s, k);
    }
}

proof fn value_is_natural(s: Seq<char>, k: int)
    requires
        0 <= k <= s.len(),
        all_digits(s),
    ensures
        0 <= value_of(s.take(k)),
    decreases k,
{
    if k > 0 {
        value_is_natural(s, k - 1);
        assert(s.take(k).drop_last() =~= s.take(k - 1));
        assert(s.take(k).last() == s[k - 1]);
    }
}

fn digit_of(c: char) -> (out: Option<usize>)
    ensures
        out == if '0' as int <= c as int <= '9' as int {
            Some((c as int - '0' as int) as usize)
        } else {
            None
        },
        out matches Some(d) ==> d == c as int - '0' as int && d <= 9,
{
    let n: u32 = c as u32;
    if 48 <= n && n <= 57 {
        Some((n - 48) as usize)
    } else {
        None
    }
}

/// Reads a number.
fn parse_number(s: &str) -> (out: Option<usize>)
    ensures
        parsed(s@) == match out {
            Some(n) => Some(n as int),
            None => None,
        },
{
    let chars = chars_of(s);
    let n: usize = chars.len();
    let start: usize = if n > 1 && chars[0] == '+' {
        1
    } else {
        0
    };
    let ghost digits = digits_of(s@);
    proof {
        assert(chars@.skip(start as int) =~= digits);
    }
    if start == n {
        return None;
    }
    let mut value: usize = 0;
    let mut i: usize = start;
    proof {
        assert(digits.take(0) =~= seq![]);
    }
    while i < n
        invariant
            start <= i <= n,
            start < n,
            n == chars@.len(),
            chars@ == s@,
            digits == digits_of(s@),
            chars@.skip(start as int) == digits,
            digits.len() == n - start,
            value == value_of(digits.take(i - start)),
            forall|j: int|
                0 <= j < i - start ==> '0' as int <= (#[trigger] digits[j]) as int <= '9' as int,
        decreases n - i,
    {
        proof {
            assert(digits[i - start] == chars@[i as int]);
            assert(digits.take(i + 1 - start).drop_last() =~= digits.take(i - start));
        }
        let d: usize = match digit_of(chars[i]) {
            Some(d) => d,
            None => {
                return None;
            },
        };
        if value > (usize::MAX - d) / 10 {
            proof {
                if all_digits(digits) {
                    value_grows(digits, i + 1 - start);
                }
            }
            return None;
        }
        value = value * 10 + d;
        i += 1;
    }
    proof {
        assert(digits.take(i - start) =~= digits);
    }
    Some(value)
}

/// How many threads the model runs on: what the environment says where that is a
/// number above zero, else the processors there are, up to eight, or four where their
/// number cannot be told.
pub open spec fn threads_for(setting: Option<Seq<char>>, processors: Option<usize>) -> int {
    match setting {
        Some(s) => match parsed(s) {
            Some(n) if n > 0 => n,
            _ => processors_used(processors),
        },
        None => processors_used(processors),
    }
}

/// The processors that are used where nothing is said.
pub open spec fn processors_used(processors: Option<usize>) -> int {
    match processors {
        Some(n) => if n < 8 {
            n as int
        } else {
            8
        },
        None => 4,
    }
}

/// Embedding is nearly all of the index's wall time, so the number of threads is the
/// main lever. Capped rather than set to the full core count, because efficiency cores
/// contribute little here and oversubscription costs more than it gains.
pub fn intra_threads(setting: Option<&str>, processors: Option<usize>) -> (out: usize)
    ensures
        out == threads_for(
            match setting {
                Some(s) => Some(s@),
                None => None,
            },
            processors,
        ),
{
    if let Some(s) = setting {
        if let Some(n) = parse_number(s) {
            if n > 0 {
                return n;
            }
        }
    }
    match processors {
        Some(n) => if n < 8 {
            n
        } else {
            8
        },
        None => 4,
    }
}

/// How many texts go through the model at once.
pub const BATCH: usize = 32;

/// The windows of a list: from where, to where.
pub open spec fn windows_of(n: int, start: int) -> Seq<(int, int)>
    decreases n - start,
{
    if start < 0 || start >= n {
        seq![]
    } else if n - start <= BATCH {
        seq![(start, n)]
    } else {
        seq![(start, start + BATCH)] + windows_of(n, start + BATCH)
    }
}

/// The windows that a list is embedded in, in order.
pub fn windows(n: usize) -> (out: Vec<(usize, usize)>)
    ensures
        out@.map_values(|w: (usize, usize)| (w.0 as int, w.1 as int)) == windows_of(n as int, 0),
{
    let mut out: Vec<(usize, usize)> = Vec::new();
    let mut start: usize = 0;
    let ghost f = |w: (usize, usize)| (w.0 as int, w.1 as int);
    proof {
        assert(out@.map_values(f) + windows_of(n as int, 0) =~= windows_of(n as int, 0));
    }
    while start < n
        invariant
            start <= n,
            f == (|w: (usize, usize)| (w.0 as int, w.1 as int)),
            out@.map_values(f) + windows_of(n as int, start as int) == windows_of(n as int, 0),
        decreases n - start,
    {
        let end: usize = if n - start <= BATCH {
            n
        } else {
            start + BATCH
        };
        let ghost before = out@;
        out.push((start, end));
        proof {
            assert(out@.map_values(f) =~= before.map_values(f).push((start as int, end as int)));
            assert(out@.map_values(f) + windows_of(n as int, end as int) =~= before.map_values(f)
                + windows_of(n as int, start as int));
        }
        start = end;
    }
    proof {
        assert(out@.map_values(f) + windows_of(n as int, start as int) =~= out@.map_values(f));
    }
    out
}

/// The inputs that the model may be fed, in the order in which they are made.
#[derive(Debug, Clone, Copy, PartialEq, Eq, Structural)]
pub enum ModelInput {
    InputIds,
    AttentionMask,
    TokenTypeIds,
}

impl ModelInput {
    /// The input's name.
    pub open spec fn spelled(self) -> Seq<char> {
        match self {
            ModelInput::InputIds => "input_ids"@,
            ModelInput::AttentionMask => "attention_mask"@,
            ModelInput::TokenTypeIds => "token_type_ids"@,
        }
    }

    /// The input's name.
    pub fn name(self) -> (out: &'static str)
        ensures
            out@ == self.spelled(),
    {
        match self {
            ModelInput::InputIds => "input_ids",
            ModelInput::AttentionMask => "attention_mask",
            ModelInput::TokenTypeIds => "token_type_ids",
        }
    }
}

/// A name is among those that the model declares.
pub open spec fn declares(declared: Seq<String>, name: Seq<char>) -> bool {
    exists|i: int| 0 <= i < declared.len() && (#[trigger] declared[i])@ == name
}

/// The inputs that a model is fed: those that it declares, in order.
pub open spec fn inputs_of(declared: Seq<String>) -> Seq<ModelInput> {
    let one: Seq<ModelInput> = if declares(declared, ModelInput::InputIds.spelled()) {
        seq![ModelInput::InputIds]
    } else {
        seq![]
    };
    let two = if declares(declared, ModelInput::AttentionMask.spelled()) {
        one.push(ModelInput::AttentionMask)
    } else {
        one
    };
    if declares(declared, ModelInput::TokenTypeIds.spelled()) {
        two.push(ModelInput::TokenTypeIds)
    } else {
        two
    }
}

fn has_input(declared: &Vec<String>, name: &str) -> (r: bool)
    ensures
        r == declares(declared@, name@),
{
    let mut i: usize = 0;
    while i < declared.len()
        invariant
            i <= declared@.len(),
            forall|j: int| 0 <= j < i ==> (#[trigger] declared@[j])@ != name@,
        decreases declared.len() - i,
    {
        if same_str(declared[i].as_str(), name) {
            return true;
        }
        i += 1;
    }
    false
}

/// The inputs to feed. Some exports of the model omit one; only declared inputs are fed.
pub fn model_inputs(declared: &Vec<String>) -> (out: Vec<ModelInput>)
    ensures
        out@ == inputs_of(declared@),
{
    let mut out: Vec<ModelInput> = Vec::new();
    if has_input(declared, ModelInput::InputIds.name()) {
        out.push(ModelInput::InputIds);
        proof {
            assert(out@ =~= seq![ModelInput::InputIds]);
        }
    }
    if has_input(declared, ModelInput::AttentionMask.name()) {
        out.push(ModelInput::AttentionMask);
    }
    if has_input(declared, ModelInput::TokenTypeIds.name()) {
        out.push(ModelInput::TokenTypeIds);
    }
    proof {
        assert(out@ =~= inputs_of(declared@));
    }
    out
}

/// What the tokenizer makes of one text.
#[derive(Debug, Clone)]
pub struct Tokens {
    pub ids: Vec<u32>,
    pub attention_mask: Vec<u32>,
    pub type_ids: Vec<u32>,
}

/// The numbers of a text that an input is made of.
pub open spec fn row_of(tokens: Tokens, input: ModelInput) -> Seq<u32> {
    match input {
        ModelInput::InputIds => tokens.ids@,
        ModelInput::AttentionMask => tokens.attention_mask@,
        ModelInput::TokenTypeIds => tokens.type_ids@,
    }
}

/// The numbers of all the texts for an input, one row after the other.
pub open spec fn flattened(encoded: Seq<Tokens>, input: ModelInput) -> Seq<i64>
    decreases encoded.len(),
{
    if encoded.len() == 0 {
        seq![]
    } else {
        flattened(encoded.drop_last(), input) + row_of(encoded.last(), input).map_values(
            |v: u32| v as i64,
        )
    }
}

/// Lays the numbers of a batch out as the model takes them: row after row.
pub fn flatten(encoded: &Vec<Tokens>, input: ModelInput) -> (out: Vec<i64>)
    ensures
        out@ == flattened(encoded@, input),
{
    let mut out: Vec<i64> = Vec::new();
    let mut i: usize = 0;
    proof {
        assert(encoded@.take(0) =~= seq![]);
    }
    while i < encoded.len()
        invariant
            i <= encoded@.len(),
            out@ == flattened(encoded@.take(i as int), input),
        decreases encoded.len() - i,
    {
        let tokens = &encoded[i];
        let row = match input {
            ModelInput::InputIds => &tokens.ids,
            ModelInput::AttentionMask => &tokens.attention_mask,
            ModelInput::TokenTypeIds => &tokens.type_ids,
        };
        let ghost start = out@;
        let ghost all = row@.map_values(|v: u32| v as i64);
        let mut j: usize = 0;
        proof {
            assert(out@ =~= start + all.take(0));
        }
        while j < row.len()
            invariant
                j <= row@.len(),
                all == row@.map_values(|v: u32| v as i64),
                out@ == start + all.take(j as int),
            decreases row.len() - j,
        {
            out.push(row[j] as i64);
            j += 1;
            proof {
                assert(all.take(j as int) =~= all.take(j - 1).push(all[j - 1]));
                assert(out@ =~= start + all.take(j as int));
            }
        }
        proof {
            assert(all.take(j as int) =~= all);
            assert(encoded@.take(i + 1).drop_last() =~= encoded@.take(i as int));
        }
        i += 1;
    }
    proof {
        assert(encoded@.take(i as int) =~= encoded@);
    }
    out
}

/// A batch as the model is fed it: how many texts, how many tokens each, and the numbers
/// of every input.
#[derive(Debug)]
pub struct Batch {
    pub texts: usize,
    pub tokens: usize,
    pub fed: Vec<(ModelInput, Vec<i64>)>,
}

/// Makes the batch of the given texts, or nothing where there are no texts, or none of
/// their tokens. All are taken to have as many tokens as the first: the tokenizer pads
/// them to one length.
pub fn model_batch(encoded: &Vec<Tokens>, inputs: &Vec<ModelInput>) -> (out: Option<Batch>)
    ensures
        match out {
            None => encoded@.len() == 0 || encoded@[0].ids@.len() == 0,
            Some(batch) => {
                &&& encoded@.len() > 0
                &&& batch.texts == encoded@.len()
                &&& batch.tokens == encoded@[0].ids@.len()
                &&& batch.tokens > 0
                &&& batch.fed@.len() == inputs@.len()
                &&& forall|k: int|
                    0 <= k < inputs@.len() ==> (#[trigger] batch.fed@[k]).0 == inputs@[k]
                        && batch.fed@[k].1@ == flattened(encoded@, inputs@[k])
            },
        },
{
    if encoded.len() == 0 || encoded[0].ids.len() == 0 {
        return None;
    }
    let mut fed: Vec<(ModelInput, Vec<i64>)> = Vec::new();
    let mut k: usize = 0;
    while k < inputs.len()
        invariant
            k <= inputs@.len(),
            fed@.len() == k,
            forall|j: int|
                0 <= j < k ==> (#[trigger] fed@[j]).0 == inputs@[j] && fed@[j].1@ == flattened(
                    encoded@,
                    inputs@[j],
                ),
        decreases inputs.len() - k,
    {
        fed.push((inputs[k], flatten(encoded, inputs[k])));
        k += 1;
    }
    Some(Batch { texts: encoded.len(), tokens: encoded[0].ids.len(), fed })
}

/// Where the first token of the text at `row` starts in the model's output.
pub open spec fn first_token_start(row: int, tokens: int, hidden: int) -> int {
    row * tokens * hidden
}

/// The numbers that stand for each text in the model's output, of `tokens` tokens per
/// text and `hidden` numbers per token: those of its first token. Nothing where the
/// output is too short for them.
///
/// The model pools its first token rather than the mean of all. Getting this wrong
/// degrades retrieval quietly, which is the worst way for it to break.
pub fn first_tokens(batch: usize, tokens: usize, hidden: usize, length: usize) -> (out: Option<
    Vec<(usize, usize)>,
>)
    ensures
        match out {
            Some(list) => list@.len() == batch && forall|b: int|
                0 <= b < batch ==> (#[trigger] list@[b]).0 == first_token_start(
                    b,
                    tokens as int,
                    hidden as int,
                ) && list@[b].1 == list@[b].0 + hidden && list@[b].1 <= length,
            None => exists|b: int|
                0 <= b < batch && #[trigger] first_token_start(b, tokens as int, hidden as int)
                    + hidden > length,
        },
{
    let mut out: Vec<(usize, usize)> = Vec::new();
    let mut b: usize = 0;
    while b < batch
        invariant
            b <= batch,
            out@.len() == b,
            forall|k: int|
                0 <= k < b ==> (#[trigger] out@[k]).0 == first_token_start(
                    k,
                    tokens as int,
                    hidden as int,
                ) && out@[k].1 == out@[k].0 + hidden && out@[k].1 <= length,
        decreases batch - b,
    {
        let start: u128 = match (b as u128).checked_mul(tokens as u128) {
            Some(n) => match n.checked_mul(hidden as u128) {
                Some(n) => n,
                None => {
                    proof {
                        assert(first_token_start(b as int, tokens as int, hidden as int)
                            > u128::MAX);
                        assert(first_token_start(b as int, tokens as int, hidden as int) + hidden
                            > length);
                    }
                    return None;
                },
            },
            None => {
                proof {
                    product_fits(b, tokens);
                }
                return None;
            },
        };
        if start > length as u128 || (length as u128 - start) < hidden as u128 {
            proof {
                assert(first_token_start(b as int, tokens as int, hidden as int) + hidden
                    > length);
            }
            return None;
        }
        let from: usize = start as usize;
        out.push((from, from + hidden));
        b += 1;
    }
    Some(out)
}

proof fn product_fits(a: usize, b: usize)
    ensures
        a * b <= u128::MAX,
{
    assert(a * b <= 0xffff_ffff_ffff_ffff * 0xffff_ffff_ffff_ffff) by (nonlinear_arith)
        requires
            0 <= a <= 0xffff_ffff_ffff_ffff,
            0 <= b <= 0xffff_ffff_ffff_ffff,
    ;
}

/// The windows of a list cover it: each starts where the one before it ends, the first at
/// the start and the last up to the end, and none is empty or holds more than a batch.
pub proof fn windows_cover_the_list(n: int, start: int)
    requires
        0 <= start <= n,
    ensures
        ({
            let w = windows_of(n, start);
            &&& w.len() == 0 <==> start == n
            &&& w.len() > 0 ==> w[0].0 == start && w.last().1 == n
            &&& forall|i: int| 0 < i < w.len() ==> (#[trigger] w[i]).0 == w[i - 1].1
            &&& forall|i: int| 0 <= i < w.len() ==> 0 < (#[trigger] w[i]).1 - w[i].0 <= 32
        }),
    decreases n - start,
{
    let w = windows_of(n, start);
    if start < n && n - start > BATCH {
        let rest = windows_of(n, start + BATCH);
        windows_cover_the_list(n, start + BATCH);
        assert(w =~= seq![(start, start + BATCH)] + rest);
        assert forall|i: int| 0 < i < w.len() implies (#[trigger] w[i]).0 == w[i - 1].1 by {
            assert(w[i] == rest[i - 1]);
            if i > 1 {
                assert(w[i - 1] == rest[i - 2]);
            }
        }
        assert forall|i: int| 0 <= i < w.len() implies 0 < (#[trigger] w[i]).1 - w[i].0 <= 32 by {
            if i > 0 {
                assert(w[i] == rest[i - 1]);
            }
        }
        assert(w.last() == rest.last());
    }
}

/// A batch is laid out row by row: where every text has as many numbers, number `j` of
/// text `i` stands behind those of the texts before it, and nothing else is there.
pub proof fn a_batch_holds_every_number(
    encoded: Seq<Tokens>,
    input: ModelInput,
    width: int,
    i: int,
    j: int,
)
    requires
        forall|k: int|
            0 <= k < encoded.len() ==> row_of(#[trigger] encoded[k], input).len() == width,
        0 <= i < encoded.len(),
        0 <= j < width,
    ensures
        flattened(encoded, input).len() == encoded.len() * width,
        0 <= i * width + j < flattened(encoded, input).len(),
        flattened(encoded, input)[i * width + j] == row_of(encoded[i], input)[j] as i64,
    decreases encoded.len(),
{
    let rest = encoded.drop_last();
    let last = encoded.last();
    let n = encoded.len() - 1;
    let row = row_of(last, input).map_values(|v: u32| v as i64);
    assert(row_of(encoded[n], input).len() == width);
    assert forall|k: int| 0 <= k < rest.len() implies row_of(#[trigger] rest[k], input).len()
        == width by {
        assert(rest[k] == encoded[k]);
    }
    assert(flattened(rest, input).len() == n * width) by {
        if n > 0 {
            a_batch_holds_every_number(rest, input, width, 0, j);
        } else {
            assert(n * width == 0) by (nonlinear_arith)
                requires
                    n == 0,
            ;
        }
    }
    assert(n * width + width == encoded.len() * width) by (nonlinear_arith)
        requires
            n + 1 == encoded.len(),
    ;
    if i < n {
        a_batch_holds_every_number(rest, input, width, i, j);
        assert(rest[i] == encoded[i]);
    } else {
        assert(flattened(encoded, input)[n * width + j] == row[j]);
    }
    assert(0 <= i * width) by (nonlinear_arith)
        requires
            0 <= i,
            0 <= width,
    ;
}

/// A model is fed exactly the inputs that it declares of those there are, each once.
pub proof fn a_model_is_fed_what_it_declares(declared: Seq<String>, input: ModelInput)
    ensures
        inputs_of(declared).contains(input) <==> declares(declared, input.spelled()),
        inputs_of(declared).no_duplicates(),
        inputs_of(declared).contains(ModelInput::InputIds) <==> exists|i: int|
            0 <= i < declared.len() && (#[trigger] declared[i])@ == "input_ids"@,
        inputs_of(declared).contains(ModelInput::AttentionMask) <==> exists|i: int|
            0 <= i < declared.len() && (#[trigger] declared[i])@ == "attention_mask"@,
        inputs_of(declared).contains(ModelInput::TokenTypeIds) <==> exists|i: int|
            0 <= i < declared.len() && (#[trigger] declared[i])@ == "token_type_ids"@,
{
    let all = inputs_of(declared);
    let ids = declares(declared, ModelInput::InputIds.spelled());
    let mask = declares(declared, ModelInput::AttentionMask.spelled());
    let types = declares(declared, ModelInput::TokenTypeIds.spelled());
    if ids {
        assert(all[0] == ModelInput::InputIds);
    }
    if mask {
        assert(all[if ids {
            1
        } else {
            0
        }] == ModelInput::AttentionMask);
    }
    if types {
        assert(all[all.len() - 1] == ModelInput::TokenTypeIds);
    }
}

/// The number of threads is never zero, and where nothing usable is said of it, never
/// more than eight and never more than the processors there are.
pub proof fn there_is_always_a_thread(setting: Option<Seq<char>>, processors: Option<usize>)
    requires
        processors matches Some(n) ==> n > 0,
    ensures
        threads_for(setting, processors) > 0,
        setting is None ==> threads_for(setting, processors) <= 8,
        setting is None ==> (processors matches Some(n) ==> threads_for(setting, processors) <= n
            && (threads_for(setting, processors) == n || threads_for(setting, processors) == 8)),
        setting is None && processors is None ==> threads_for(setting, processors) == 4,
        setting matches Some(s) ==> (parsed(s) matches Some(n) ==> (n > 0 ==> threads_for(
            setting,
            processors,
        ) == n)),
        setting matches Some(s) ==> (parsed(s) is None || parsed(s) == Some(0int) ==> threads_for(
            setting,
            processors,
        ) == threads_for(None, processors)),
{
}

/// The first tokens of two texts that follow each other are as far apart as one text's
/// output is long, and the first of all is at the start.
pub proof fn first_tokens_are_a_text_apart(row: int, tokens: int, hidden: int)
    ensures
        first_token_start(0, tokens, hidden) == 0,
        first_token_start(row + 1, tokens, hidden) - first_token_start(row, tokens, hidden) == tokens
            * hidden,
{
    assert((row + 1) * tokens * hidden - row * tokens * hidden == tokens * hidden)
        by (nonlinear_arith);
    assert(0 * tokens * hidden == 0) by (nonlinear_arith);
}

/// A number that is written in decimal is read as that number, with a plus before it or
/// not, and a text with anything but digits is no number.
pub proof fn a_number_reads_back(n: nat, s: Seq<char>, i: int)
    requires
        n <= usize::MAX,
        1 <= i < s.len(),
        (s[i] as int) < 48 || (s[i] as int) > 57,
    ensures
        parsed(decimal(n)) == Some(n as int),
        parsed(seq!['+'] + decimal(n)) == Some(n as int),
        parsed(s) is None,
{
    decimal_digits(n);
    decimal_reads_back(n);
    let d = decimal(n);
    let p = seq!['+'] + d;
    assert(d[0] != '+');
    assert(p.skip(1) =~= d);
    assert(all_digits(d));
    if digits_of(s) == s {
        assert(!all_digits(s));
    } else {
        assert(s.skip(1)[i - 1] == s[i]);
        assert(!all_digits(s.skip(1)));
    }
}

/// Each input of the model is fed the numbers that are its own.
pub proof fn each_input_is_fed_its_own_numbers(tokens: Tokens)
    ensures
        row_of(tokens, ModelInput::InputIds) == tokens.ids@,
        row_of(tokens, ModelInput::AttentionMask) == tokens.attention_mask@,
        row_of(tokens, ModelInput::TokenTypeIds) == tokens.type_ids@,
{
}

} // verus!
