//! The models that the front end offers, and what each answers.

use vstd::prelude::*;
use vstd::string::*;
use crate::backend::clm_model::ClmModel;
use crate::backend::random::random_token;
use crate::backend::tokenizer::text_of;
use crate::chat::continuation;

verus! {

/// The longest prompt, in characters, that the compression model still extends.
pub const LONGEST_PROMPT: usize = 250;

/// A model that the front end offers.
#[derive(Debug, Copy, Clone, PartialEq, Eq, Structural)]
pub enum FrontendModel {
    ChatCLM1_0,
    ChatGPT3_5,
    ChatGPT4o,
    ChatRandom,
}

/// What is put behind a prompt by the model that answers at random.
pub open spec fn random_suffix() -> Seq<char> {
    " next"@
}

impl FrontendModel {
    /// The name that the front end shows for the model.
    pub fn name(&self) -> (name: &'static str)
        ensures
            name@ == match self {
                FrontendModel::ChatCLM1_0 => "ChatCLM 0.1-pre-alpha"@,
                FrontendModel::ChatGPT3_5 => "ChatGPT 3.5"@,
                FrontendModel::ChatGPT4o => "ChatGPT 4o"@,
                FrontendModel::ChatRandom => "ChatRandom"@,
            },
    {
        match self {
            FrontendModel::ChatCLM1_0 => "ChatCLM 0.1-pre-alpha",
            FrontendModel::ChatGPT3_5 => "ChatGPT 3.5",
            FrontendModel::ChatGPT4o => "ChatGPT 4o",
            FrontendModel::ChatRandom => "ChatRandom",
        }
    }

    /// The model at `index` in the list that the front end shows.
    pub fn from_index(index: usize) -> (model: Self)
        requires
            index <= 3,
        ensures
            model == match index {
                0 => FrontendModel::ChatCLM1_0,
                1 => FrontendModel::ChatGPT3_5,
                2 => FrontendModel::ChatGPT4o,
                _ => FrontendModel::ChatRandom,
            },
    {
        if index == 0 {
            FrontendModel::ChatCLM1_0
        } else if index == 1 {
            FrontendModel::ChatGPT3_5
        } else if index == 2 {
            FrontendModel::ChatGPT4o
        } else {
            FrontendModel::ChatRandom
        }
    }

    /// The model at `index`, if there is one.
    pub fn try_from_index(index: usize) -> (model: Option<Self>)
        ensures
            match model {
                Some(m) => index <= 3 && m == match index {
                    0 => FrontendModel::ChatCLM1_0,
                    1 => FrontendModel::ChatGPT3_5,
                    2 => FrontendModel::ChatGPT4o,
                    _ => FrontendModel::ChatRandom,
                },
                None => index > 3,
            },
    {
        if index <= 3 {
            Some(Self::from_index(index))
        } else {
            None
        }
    }

    /// The answer of the model at `model_idx` in the front end's list where
    /// that model needs no compression model to answer: the model that is not
    /// connected answers nothing, and every other model but the compression
    /// model answers at random. `None` says that the compression model has to
    /// answer.
    pub fn answer_without_model(model_idx: usize, prompt: String) -> (answer: Option<
        Option<String>,
    >)
        requires
            model_idx <= 3,
        ensures
            answer is None <==> model_idx == 0,
            model_idx == 2 ==> answer == Some(None::<String>),
            (model_idx == 1 || model_idx == 3) ==> (answer matches Some(Some(text)) ==> text@
                == prompt@ + random_suffix()),
    {
        match FrontendModel::from_index(model_idx) {
            FrontendModel::ChatCLM1_0 => None,
            FrontendModel::ChatGPT4o => Some(gpt4o_next_token(prompt)),
            FrontendModel::ChatRandom => Some(random_next_token(prompt)),
            FrontendModel::ChatGPT3_5 => Some(random_next_token(prompt)),
        }
    }

    /// The answer of the model at `model_idx` in the front end's list: the
    /// compression model answers for itself, the model that is not connected
    /// answers nothing, and every other model answers at random.
    pub fn predict_next_token(clm: &ClmModel, model_idx: usize, prompt: String) -> (answer:
        Option<String>)
        requires
            model_idx <= 3,
        ensures
            model_idx == 2 ==> answer is None,
            (model_idx == 1 || model_idx == 3) ==> (answer matches Some(text) ==> text@ == prompt@
                + random_suffix()),
            model_idx == 0 ==> if prompt@.len() > LONGEST_PROMPT {
                answer is None
            } else {
                clm.may_extend(prompt@, 1, 3, text_of(answer))
            },
    {
        if model_idx == 0 {
            return chat_clm_next_token(clm, prompt);
        }
        match Self::answer_without_model(model_idx, prompt) {
            Some(answer) => answer,
            None => None,
        }
    }
}

/// The answer to `prompt` that goes with the byte `roll`: the end of the
/// answers where the byte leaves no remainder on division by seven, and the
/// prompt with `" next"` behind it otherwise.
pub fn answer_for_roll(prompt: String, roll: u8) -> (answer: Option<String>)
    ensures
        match answer {
            Some(text) => roll % 7 != 0 && text@ == prompt@ + random_suffix(),
            None => roll % 7 == 0,
        },
{
    let random_number: u8 = roll % 7 + 1;
    if random_number == 1 {
        None
    } else {
        Some(prompt.concat(" next"))
    }
}

/// An answer at random: one time in seven, roughly, the end of the answers;
/// otherwise the prompt with `" next"` behind it.
pub fn random_next_token(prompt: String) -> (answer: Option<String>)
    ensures
        answer matches Some(text) ==> text@ == prompt@ + random_suffix(),
{
    let roll: u8 = (random_token() % 256) as u8;
    answer_for_roll(prompt, roll)
}

/// Whether the prompt is longer than the compression model extends.
pub fn prompt_too_long(prompt: &str) -> (too_long: bool)
    ensures
        too_long == (prompt@.len() > LONGEST_PROMPT),
{
    prompt.unicode_len() > LONGEST_PROMPT
}

/// The depth of the look-ahead with which the compression model answers.
pub const ANSWER_DEPTH: usize = 1;

/// The width of the look-ahead with which the compression model answers.
pub const ANSWER_WIDTH: usize = 3;

/// The compression model's answer: the prompt extended by one token, by a
/// look-ahead of depth 1 and width 3. A prompt of more than 250 characters
/// ends the answers.
pub fn chat_clm_next_token(model: &ClmModel, prompt: String) -> (answer: Option<String>)
    ensures
        if prompt@.len() > LONGEST_PROMPT {
            answer is None
        } else {
            model.may_extend(prompt@, 1, 3, text_of(answer))
        },
{
    if prompt_too_long(prompt.as_str()) {
        return None;
    }
    model.predict_next(prompt, ANSWER_DEPTH, ANSWER_WIDTH)
}

/// The answer of the model that is not connected: none.
pub fn gpt4o_next_token(_prompt: String) -> (answer: Option<String>)
    ensures
        answer is None,
{
    None
}

/// What `response` adds to `prompt`.
pub fn cut_prompt(prompt: &String, response: &String) -> (rest: String)
    ensures
        rest@ == continuation(prompt@, response@),
{
    crate::chat::cut_prompt(prompt, response)
}

} // verus!
