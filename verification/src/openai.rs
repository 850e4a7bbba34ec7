use vstd::prelude::*;

verus! {

/// Settings of the connection that every client accepts.
#[derive(Debug, Clone, Default)]
pub struct ExtraConfig {
    pub proxy: Option<String>,
    pub connect_timeout: Option<u64>,
}

/// Settings of the OpenAI client.
#[derive(Debug, Clone, Default)]
pub struct OpenAIConfig {
    pub name: Option<String>,
    pub api_key: Option<String>,
    pub organization_id: Option<String>,
    pub extra: Option<ExtraConfig>,
}

/// One model that a client offers.
#[derive(Debug)]
pub struct ModelInfo {
    pub client: String,
    pub name: String,
    pub max_tokens: Option<usize>,
    pub index: usize,
}

/// What a `ModelInfo` holds.
pub struct ModelInfoView {
    pub client: Seq<char>,
    pub name: Seq<char>,
    pub max_tokens: Option<usize>,
    pub index: usize,
}

impl View for ModelInfo {
    type V = ModelInfoView;

    open spec fn view(&self) -> ModelInfoView {
        ModelInfoView {
            client: self.client@,
            name: self.name@,
            max_tokens: self.max_tokens,
            index: self.index,
        }
    }
}

impl ModelInfo {
    /// The model `name` of client `client`, which is number `index` among the
    /// configured clients.
    pub fn new(client: &str, name: &str, max_tokens: Option<usize>, index: usize) -> (info: Self)
        ensures
            info@ == (ModelInfoView { client: client@, name: name@, max_tokens, index }),
    {
        ModelInfo { client: client.to_owned(), name: name.to_owned(), max_tokens, index }
    }
}

/// The models that OpenAI offers, each with the number of tokens it takes.
pub open spec fn openai_models() -> Seq<(Seq<char>, usize)> {
    seq![
        ("gpt-3.5-turbo"@, 4096usize),
        ("gpt-3.5-turbo-16k"@, 16384usize),
        ("gpt-4"@, 8192usize),
        ("gpt-4-32k"@, 32768usize),
    ]
}

/// The name under which a client with these settings is known: the
/// configured one, or `openai`.
pub open spec fn openai_client_name(config: OpenAIConfig) -> Seq<char> {
    match config.name {
        Some(name) => name@,
        None => "openai"@,
    }
}

/// The client for OpenAI.
#[derive(Debug)]
pub struct OpenAIClient {
    pub config: OpenAIConfig,
    pub model_info: ModelInfo,
}

impl OpenAIClient {
    /// The name under which a client with these settings is known.
    pub fn name(local_config: &OpenAIConfig) -> (name: &str)
        ensures
            name@ == openai_client_name(*local_config),
    {
        match &local_config.name {
            Some(name) => name.as_str(),
            None => "openai",
        }
    }

    /// The models of this client, in the order of `openai_models`, each
    /// marked with the client's name and `index`.
    pub fn list_models(local_config: &OpenAIConfig, index: usize) -> (models: Vec<ModelInfo>)
        ensures
            models.len() == openai_models().len(),
            forall|i: int|
                0 <= i < models.len() ==> (#[trigger] models[i])@ == (ModelInfoView {
                    client: openai_client_name(*local_config),
                    name: openai_models()[i].0,
                    max_tokens: Some(openai_models()[i].1),
                    index,
                }),
    {
        let client = Self::name(local_config);
        let mut models: Vec<ModelInfo> = Vec::new();
        models.push(ModelInfo::new(client, "gpt-3.5-turbo", Some(4096), index));
        models.push(ModelInfo::new(client, "gpt-3.5-turbo-16k", Some(16384), index));
        models.push(ModelInfo::new(client, "gpt-4", Some(8192), index));
        models.push(ModelInfo::new(client, "gpt-4-32k", Some(32768), index));
        models
    }
}

} // verus!
