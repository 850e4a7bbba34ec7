use crate::error::RagError;
use crate::json::{
    clone_entries, merge_fields, merged, optional_object_view, Json, JsonObject, ObjectView,
};
use crate::text::{append_text, chars_of, same_text, string_of};
use crate::tokens::{estimate_token_length, token_length};
use vstd::prelude::*;

verus! {

/// Tokens that every message costs beyond its text.
pub const PER_MESSAGES_TOKENS: usize = 5;

/// Tokens that every request costs beyond its messages.
pub const BASIS_TOKENS: usize = 2;

/// What is known of a model. A price is held as the bit pattern of the
/// number.
#[derive(Debug, Default)]
pub struct ModelData {
    pub name: String,
    pub max_input_tokens: Option<usize>,
    pub max_output_tokens: Option<isize>,
    pub pass_max_tokens: bool,
    pub input_price: Option<u64>,
    pub output_price: Option<u64>,
    pub supports_vision: bool,
    pub supports_function_calling: bool,
    pub default_chunk_size: Option<usize>,
    pub max_concurrent_chunks: Option<usize>,
    pub extra_fields: Option<JsonObject>,
}

/// What a `ModelData` holds.
pub struct ModelDataView {
    pub name: Seq<char>,
    pub max_input_tokens: Option<usize>,
    pub max_output_tokens: Option<isize>,
    pub pass_max_tokens: bool,
    pub input_price: Option<u64>,
    pub output_price: Option<u64>,
    pub supports_vision: bool,
    pub supports_function_calling: bool,
    pub default_chunk_size: Option<usize>,
    pub max_concurrent_chunks: Option<usize>,
    pub extra_fields: Option<ObjectView>,
}

impl View for ModelData {
    type V = ModelDataView;

    open spec fn view(&self) -> ModelDataView {
        ModelDataView {
            name: self.name@,
            max_input_tokens: self.max_input_tokens,
            max_output_tokens: self.max_output_tokens,
            pass_max_tokens: self.pass_max_tokens,
            input_price: self.input_price,
            output_price: self.output_price,
            supports_vision: self.supports_vision,
            supports_function_calling: self.supports_function_calling,
            default_chunk_size: self.default_chunk_size,
            max_concurrent_chunks: self.max_concurrent_chunks,
            extra_fields: optional_object_view(self.extra_fields),
        }
    }
}

/// The data of a model of which only the name is known.
pub open spec fn bare_model_data(name: Seq<char>) -> ModelDataView {
    ModelDataView {
        name,
        max_input_tokens: None,
        max_output_tokens: None,
        pass_max_tokens: false,
        input_price: None,
        output_price: None,
        supports_vision: false,
        supports_function_calling: false,
        default_chunk_size: None,
        max_concurrent_chunks: None,
        extra_fields: None,
    }
}

impl ModelData {
    /// The data of a model of which only the name is known.
    pub fn new(name: &str) -> (data: Self)
        ensures
            data@ == bare_model_data(name@),
    {
        ModelData {
            name: name.to_owned(),
            max_input_tokens: None,
            max_output_tokens: None,
            pass_max_tokens: false,
            input_price: None,
            output_price: None,
            supports_vision: false,
            supports_function_calling: false,
            default_chunk_size: None,
            max_concurrent_chunks: None,
            extra_fields: None,
        }
    }
}

impl Clone for ModelData {
    fn clone(&self) -> (copy: Self)
        ensures
            copy@ == self@,
    {
        let extra_fields = match &self.extra_fields {
            Some(fields) => Some(clone_entries(fields)),
            None => None,
        };
        ModelData {
            name: self.name.clone(),
            max_input_tokens: self.max_input_tokens,
            max_output_tokens: self.max_output_tokens,
            pass_max_tokens: self.pass_max_tokens,
            input_price: self.input_price,
            output_price: self.output_price,
            supports_vision: self.supports_vision,
            supports_function_calling: self.supports_function_calling,
            default_chunk_size: self.default_chunk_size,
            max_concurrent_chunks: self.max_concurrent_chunks,
            extra_fields,
        }
    }
}

/// The models that a platform offers.
#[derive(Debug)]
pub struct BuiltinModels {
    pub platform: String,
    pub models: Vec<ModelData>,
}

/// Who speaks in a message.
#[derive(Debug, Clone, Copy, PartialEq, Eq, Structural)]
pub enum MessageRole {
    System,
    Assistant,
    User,
}

impl MessageRole {
    /// Whether the user speaks.
    pub fn is_user(&self) -> (user: bool)
        ensures
            user == (*self == MessageRole::User),
    {
        match self {
            MessageRole::User => true,
            _ => false,
        }
    }
}

/// What a message holds: a text, or a list of parts, which counts for no
/// tokens.
#[derive(Debug)]
pub enum MessageContent {
    Text(String),
    Array(Vec<String>),
}

/// One message of a conversation.
#[derive(Debug)]
pub struct Message {
    pub role: MessageRole,
    pub content: MessageContent,
}

/// The tokens of the text of one message.
pub open spec fn message_tokens(message: Message) -> nat {
    match message.content {
        MessageContent::Text(text) => token_length(text@),
        MessageContent::Array(_) => 0,
    }
}

/// The tokens of the texts of all messages.
pub open spec fn messages_token_sum(messages: Seq<Message>) -> nat
    decreases messages.len(),
{
    if messages.len() == 0 {
        0
    } else {
        messages_token_sum(messages.drop_last()) + message_tokens(messages.last())
    }
}

/// The tokens that a request with these messages counts for: those of the
/// texts, and `PER_MESSAGES_TOKENS` for each message but a last one that is
/// not the user's.
pub open spec fn total_token_count(messages: Seq<Message>) -> nat {
    if messages.len() == 0 {
        0
    } else if messages.last().role == MessageRole::User {
        messages.len() * PER_MESSAGES_TOKENS as nat + messages_token_sum(messages)
    } else {
        ((messages.len() - 1) * PER_MESSAGES_TOKENS as nat + messages_token_sum(messages)) as nat
    }
}

/// A model of a client.
#[derive(Debug)]
pub struct Model {
    pub client_name: String,
    pub data: ModelData,
}

/// What a `Model` holds.
pub struct ModelView {
    pub client_name: Seq<char>,
    pub data: ModelDataView,
}

impl View for Model {
    type V = ModelView;

    open spec fn view(&self) -> ModelView {
        ModelView { client_name: self.client_name@, data: self.data@ }
    }
}

impl Clone for Model {
    fn clone(&self) -> (copy: Self)
        ensures
            copy@ == self@,
    {
        Model { client_name: self.client_name.clone(), data: self.data.clone() }
    }
}

impl Default for Model {
    fn default() -> (model: Self)
        ensures
            model@ == (ModelView {
                client_name: Seq::<char>::empty(),
                data: bare_model_data(Seq::<char>::empty()),
            }),
    {
        let model = Model { client_name: String::new(), data: ModelData::new("") };
        proof {
            reveal_strlit("");
            assert(""@ =~= Seq::<char>::empty());
        }
        model
    }
}

/// The identifier of a model: the name of its client, a colon, its name.
pub open spec fn model_id(model: ModelView) -> Seq<char> {
    model.client_name + seq![':'] + model.data.name
}

/// The views of a list of models.
pub open spec fn model_views(models: Seq<&Model>) -> Seq<ModelView> {
    Seq::new(models.len(), |i: int| models[i]@)
}

/// The position of the first colon in `value`, or its length where it has
/// none.
pub open spec fn colon_position(value: Seq<char>) -> int
    decreases value.len(),
{
    if value.len() == 0 {
        0
    } else if value[0] == ':' {
        0
    } else {
        1 + colon_position(value.drop_first())
    }
}

/// The client that `value` names: what stands before its first colon.
pub open spec fn named_client(value: Seq<char>) -> Seq<char> {
    value.subrange(0, colon_position(value))
}

/// The model that `value` names: what follows its first colon, if anything
/// does.
pub open spec fn named_model(value: Seq<char>) -> Option<Seq<char>> {
    let at = colon_position(value);
    if at + 1 < value.len() {
        Some(value.subrange(at + 1, value.len() as int))
    } else {
        None
    }
}

/// The first position from `from` on whose model has the identifier `id`;
/// the length of the list where none has.
pub open spec fn first_with_id(models: Seq<ModelView>, id: Seq<char>, from: int) -> int
    decreases models.len() - from,
{
    if from < 0 || from >= models.len() {
        models.len() as int
    } else if model_id(models[from]) == id {
        from
    } else {
        first_with_id(models, id, from + 1)
    }
}

/// The first position from `from` on whose model belongs to `client`; the
/// length of the list where none does.
pub open spec fn first_of_client(models: Seq<ModelView>, client: Seq<char>, from: int) -> int
    decreases models.len() - from,
{
    if from < 0 || from >= models.len() {
        models.len() as int
    } else if models[from].client_name == client {
        from
    } else {
        first_of_client(models, client, from + 1)
    }
}

/// The model that `value` selects among `models`.
///
/// `value` is `client` or `client:model`. With a model name, the first model
/// with that identifier is selected; failing that, the first model of the
/// client, under the name given. Without one, the first model of the client.
pub open spec fn found_model(models: Seq<ModelView>, value: Seq<char>) -> Option<ModelView> {
    let client = named_client(value);
    let of_client = first_of_client(models, client, 0);
    match named_model(value) {
        Some(name) => {
            let exact = first_with_id(models, value, 0);
            if exact < models.len() {
                Some(models[exact])
            } else if of_client < models.len() {
                Some(
                    ModelView {
                        client_name: models[of_client].client_name,
                        data: ModelDataView { name, ..models[of_client].data },
                    },
                )
            } else {
                None
            }
        },
        None => if of_client < models.len() {
            Some(models[of_client])
        } else {
            None
        },
    }
}

impl Model {
    /// The model `name` of client `client_name`, of which nothing more is
    /// known.
    pub fn new(client_name: &str, name: &str) -> (model: Self)
        ensures
            model@ == (ModelView { client_name: client_name@, data: bare_model_data(name@) }),
    {
        Model { client_name: client_name.to_owned(), data: ModelData::new(name) }
    }

    /// One model of client `client_name` for each of `models`.
    pub fn from_config(client_name: &str, models: &[ModelData]) -> (list: Vec<Self>)
        ensures
            list.len() == models.len(),
            forall|i: int|
                0 <= i < list.len() ==> (#[trigger] list[i])@ == (ModelView {
                    client_name: client_name@,
                    data: models[i]@,
                }),
    {
        let mut list: Vec<Model> = Vec::new();
        let mut i: usize = 0;
        while i < models.len()
            invariant
                i <= models.len(),
                list.len() == i,
                forall|j: int|
                    0 <= j < i ==> (#[trigger] list[j])@ == (ModelView {
                        client_name: client_name@,
                        data: models[j]@,
                    }),
            decreases models.len() - i,
        {
            list.push(Model { client_name: client_name.to_owned(), data: models[i].clone() });
            i += 1;
        }
        list
    }

    /// The model that `value` selects among `models`.
    pub fn find(models: &[&Self], value: &str) -> (found: Option<Self>)
        ensures
            match found_model(model_views(models@), value@) {
                Some(view) => found matches Some(model) && model@ == view,
                None => found is None,
            },
    {
        let ghost views = model_views(models@);
        let chars = chars_of(value);
        let mut at: usize = 0;
        assert(value@.subrange(0, value@.len() as int) =~= value@);
        while at < chars.len() && chars[at] != ':'
            invariant
                at <= chars.len(),
                chars@ == value@,
                colon_position(value@) == at + colon_position(value@.subrange(
                    at as int,
                    value@.len() as int,
                )),
            decreases chars.len() - at,
        {
            proof {
                let here = value@.subrange(at as int, value@.len() as int);
                assert(here.drop_first() =~= value@.subrange(at + 1, value@.len() as int));
            }
            at += 1;
        }
        proof {
            assert(value@.subrange(0, value@.len() as int) =~= value@);
            let here = value@.subrange(at as int, value@.len() as int);
            if at < chars.len() {
                assert(here[0] == ':');
            }
            assert(colon_position(value@) == at);
        }
        let client = string_of(&chars, 0, at);
        let mut of_client: usize = 0;
        while of_client < models.len() && !same_text(
            models[of_client].client_name.as_str(),
            client.as_str(),
        )
            invariant
                of_client <= models.len(),
                views == model_views(models@),
                first_of_client(views, client@, of_client as int) == first_of_client(
                    views,
                    client@,
                    0,
                ),
            decreases models.len() - of_client,
        {
            of_client += 1;
        }
        if chars.len() - at > 1 {
            let name = string_of(&chars, at + 1, chars.len());
            let mut exact: usize = 0;
            while exact < models.len() && !same_text(models[exact].id().as_str(), value)
                invariant
                    exact <= models.len(),
                    views == model_views(models@),
                    first_with_id(views, value@, exact as int) == first_with_id(views, value@, 0),
                decreases models.len() - exact,
            {
                exact += 1;
            }
            if exact < models.len() {
                Some(models[exact].clone())
            } else if of_client < models.len() {
                let mut model = models[of_client].clone();
                model.data.name = name;
                Some(model)
            } else {
                None
            }
        } else if of_client < models.len() {
            Some(models[of_client].clone())
        } else {
            None
        }
    }

    /// The identifier of the model.
    pub fn id(&self) -> (id: String)
        ensures
            id@ == model_id(self@),
    {
        let mut id = self.client_name.clone();
        id.push(':');
        append_text(&mut id, self.data.name.as_str());
        assert(id@ =~= model_id(self@));
        id
    }

    /// The name of the client.
    pub fn client_name(&self) -> (name: &str)
        ensures
            name@ == self@.client_name,
    {
        self.client_name.as_str()
    }

    /// The name of the model.
    pub fn name(&self) -> (name: &str)
        ensures
            name@ == self@.data.name,
    {
        self.data.name.as_str()
    }

    /// What is known of the model.
    pub fn data(&self) -> (data: &ModelData)
        ensures
            data == &self.data,
    {
        &self.data
    }

    /// What is known of the model, to be changed.
    pub fn data_mut(&mut self) -> (data: &mut ModelData)
        ensures
            *data == old(self).data,
            final(self).client_name == old(self).client_name,
            final(self).data == *final(data),
    {
        &mut self.data
    }

    /// How many tokens the model takes, if that is known.
    pub fn max_input_tokens(&self) -> (limit: Option<usize>)
        ensures
            limit == self.data.max_input_tokens,
    {
        self.data.max_input_tokens
    }

    /// How many tokens the model gives, if that is known.
    pub fn max_output_tokens(&self) -> (limit: Option<isize>)
        ensures
            limit == self.data.max_output_tokens,
    {
        self.data.max_output_tokens
    }

    /// Whether the model takes images.
    pub fn supports_vision(&self) -> (supported: bool)
        ensures
            supported == self.data.supports_vision,
    {
        self.data.supports_vision
    }

    /// Whether the model calls functions.
    pub fn supports_function_calling(&self) -> (supported: bool)
        ensures
            supported == self.data.supports_function_calling,
    {
        self.data.supports_function_calling
    }

    /// The limit on output tokens to send with a request: the known one,
    /// where it is to be passed on.
    pub fn max_tokens_param(&self) -> (limit: Option<isize>)
        ensures
            limit == if self.data.pass_max_tokens {
                self.data.max_output_tokens
            } else {
                None
            },
    {
        if self.data.pass_max_tokens {
            self.data.max_output_tokens
        } else {
            None
        }
    }

    /// Sets the limit on output tokens, where zero stands for none, and
    /// whether it is to be passed on.
    pub fn set_max_tokens(
        &mut self,
        max_output_tokens: Option<isize>,
        pass_max_tokens: bool,
    ) -> (model: &mut Self)
        ensures
            *final(self) == *final(model),
            *model == (Model {
                client_name: old(self).client_name,
                data: ModelData {
                    max_output_tokens: if max_output_tokens == Some(0isize) {
                        None
                    } else {
                        max_output_tokens
                    },
                    pass_max_tokens,
                    ..old(self).data
                },
            }),
            model@ == (ModelView {
                client_name: old(self)@.client_name,
                data: ModelDataView {
                    max_output_tokens: if max_output_tokens == Some(0isize) {
                        None
                    } else {
                        max_output_tokens
                    },
                    pass_max_tokens,
                    ..old(self)@.data
                },
            }),
    {
        match max_output_tokens {
            None => {
                self.data.max_output_tokens = None;
            },
            Some(limit) => {
                if limit == 0 {
                    self.data.max_output_tokens = None;
                } else {
                    self.data.max_output_tokens = max_output_tokens;
                }
            },
        }
        self.data.pass_max_tokens = pass_max_tokens;
        self
    }

    /// The size of chunks to split into for this model, where nothing else
    /// is asked for.
    pub fn default_chunk_size(&self) -> (size: usize)
        ensures
            size == match self.data.default_chunk_size {
                Some(size) => size,
                None => 1000,
            },
    {
        match self.data.default_chunk_size {
            Some(size) => size,
            None => 1000,
        }
    }

    /// How many texts the model embeds in one request.
    pub fn max_concurrent_chunks(&self) -> (count: usize)
        ensures
            count == match self.data.max_concurrent_chunks {
                Some(count) => count,
                None => 1,
            },
    {
        match self.data.max_concurrent_chunks {
            Some(count) => count,
            None => 1,
        }
    }

    /// Merges the extra fields of the model into the body of a request: a
    /// field that the body lacks is added; a field that the body has is
    /// merged into it one level down, where both are objects.
    pub fn merge_extra_fields(&self, body: &mut Json)
        ensures
            final(body)@ == merged(old(body)@, self@.data.extra_fields),
    {
        merge_fields(&self.data.extra_fields, body);
    }

    /// The tokens of the texts of `messages`, no more than a word holds.
    pub fn messages_tokens(&self, messages: &[Message]) -> (tokens: usize)
        ensures
            tokens == if messages_token_sum(messages@) > usize::MAX {
                usize::MAX as nat
            } else {
                messages_token_sum(messages@)
            },
    {
        let mut tokens: usize = 0;
        let mut i: usize = 0;
        assert(messages@.take(0) =~= Seq::<Message>::empty());
        while i < messages.len()
            invariant
                i <= messages.len(),
                tokens == if messages_token_sum(messages@.take(i as int)) > usize::MAX {
                    usize::MAX as nat
                } else {
                    messages_token_sum(messages@.take(i as int))
                },
            decreases messages.len() - i,
        {
            assert(messages@.take(i + 1).drop_last() =~= messages@.take(i as int));
            let count = match &messages[i].content {
                MessageContent::Text(text) => estimate_token_length(text.as_str()),
                MessageContent::Array(_) => 0,
            };
            tokens = tokens.saturating_add(count);
            i += 1;
        }
        assert(messages@.take(messages.len() as int) =~= messages@);
        tokens
    }

    /// The tokens that a request with these messages counts for, no more
    /// than a word holds.
    pub fn total_tokens(&self, messages: &[Message]) -> (tokens: usize)
        ensures
            tokens == if total_token_count(messages@) > usize::MAX {
                usize::MAX as nat
            } else {
                total_token_count(messages@)
            },
    {
        if messages.len() == 0 {
            return 0;
        }
        let num_messages = messages.len();
        let message_tokens = self.messages_tokens(messages);
        let counted = if messages[num_messages - 1].role.is_user() {
            num_messages
        } else {
            num_messages - 1
        };
        let total: u128 = counted as u128 * PER_MESSAGES_TOKENS as u128 + message_tokens as u128;
        if total > usize::MAX as u128 {
            usize::MAX
        } else {
            total as usize
        }
    }

    /// Whether a request with these messages stays below the number of
    /// tokens that the model takes.
    pub fn max_input_tokens_limit(&self, messages: &[Message]) -> (outcome: Result<(), RagError>)
        ensures
            outcome == match self.data.max_input_tokens {
                Some(limit) => if total_token_count(messages@) + BASIS_TOKENS >= limit {
                    Err::<(), RagError>(RagError::ExceedMaxInputTokens)
                } else {
                    Ok::<(), RagError>(())
                },
                None => Ok::<(), RagError>(()),
            },
    {
        let total_tokens = self.total_tokens(messages).saturating_add(BASIS_TOKENS);
        match self.data.max_input_tokens {
            Some(max_input_tokens) => {
                if total_tokens >= max_input_tokens {
                    Err(RagError::ExceedMaxInputTokens)
                } else {
                    Ok(())
                }
            },
            None => Ok(()),
        }
    }
}

} // verus!
