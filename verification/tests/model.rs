use aichat::error::{ErrorKind, RagError};
use aichat::json::{clone_json, merge_fields, Json, Member};
use aichat::model::{
    Message, MessageContent, MessageRole, Model, ModelData, BASIS_TOKENS, PER_MESSAGES_TOKENS,
};
use aichat::openai::{ModelInfo, OpenAIClient, OpenAIConfig};
use aichat::render::{detect_code_block, feed_text, language_extension, LineSyntax, MarkdownRender};

fn message(role: MessageRole, text: &str) -> Message {
    Message { role, content: MessageContent::Text(text.to_string()) }
}

fn models() -> Vec<Model> {
    let mut gpt4 = ModelData::new("gpt-4");
    gpt4.max_input_tokens = Some(8192);
    vec![
        Model { client_name: "openai".to_string(), data: gpt4 },
        Model::new("openai", "gpt-3.5-turbo"),
        Model::new("ollama", "llama3"),
    ]
}

#[test]
fn find_by_identifier() {
    let models = models();
    let list: Vec<&Model> = models.iter().collect();
    let found = Model::find(&list, "openai:gpt-3.5-turbo").expect("a known model");
    assert_eq!(found.id(), "openai:gpt-3.5-turbo");
    let found = Model::find(&list, "openai:gpt-4").expect("a known model");
    assert_eq!(found.max_input_tokens(), Some(8192));
}

#[test]
fn find_by_client() {
    let models = models();
    let list: Vec<&Model> = models.iter().collect();
    assert_eq!(Model::find(&list, "ollama").expect("a known client").id(), "ollama:llama3");
    assert_eq!(Model::find(&list, "openai").expect("a known client").id(), "openai:gpt-4");
    assert_eq!(Model::find(&list, "openai:").expect("a known client").id(), "openai:gpt-4");
    let found = Model::find(&list, "openai:custom:v2").expect("a known client");
    assert_eq!(found.id(), "openai:custom:v2");
    assert_eq!(found.name(), "custom:v2");
    assert_eq!(found.client_name(), "openai");
    assert_eq!(found.max_input_tokens(), Some(8192));
    assert!(Model::find(&list, "gemini").is_none());
    assert!(Model::find(&list, "gemini:pro").is_none());
    assert!(Model::find(&list, "").is_none());
    assert!(Model::find(&[], "openai").is_none());
}

#[test]
fn model_accessors() {
    let model = Model::new("openai", "gpt-4");
    assert_eq!(model.id(), "openai:gpt-4");
    assert_eq!(model.data().name, "gpt-4");
    assert_eq!(model.max_output_tokens(), None);
    assert!(!model.supports_vision());
    assert!(!model.supports_function_calling());
    assert_eq!(model.default_chunk_size(), 1000);
    assert_eq!(model.max_concurrent_chunks(), 1);
    assert_eq!(Model::default().id(), ":");
    let copy = model.clone();
    assert_eq!(copy.id(), model.id());
    let mut data = ModelData::new("e");
    data.default_chunk_size = Some(1500);
    data.max_concurrent_chunks = Some(100);
    let list = Model::from_config("c", &[data, ModelData::new("f")]);
    assert_eq!(list.len(), 2);
    assert_eq!(list[0].id(), "c:e");
    assert_eq!(list[0].default_chunk_size(), 1500);
    assert_eq!(list[0].max_concurrent_chunks(), 100);
    assert_eq!(list[1].id(), "c:f");
}

#[test]
fn max_tokens_are_passed_on_request() {
    let mut model = Model::new("openai", "gpt-4");
    assert_eq!(model.max_tokens_param(), None);
    model.set_max_tokens(Some(512), false);
    assert_eq!(model.max_output_tokens(), Some(512));
    assert_eq!(model.max_tokens_param(), None);
    model.set_max_tokens(Some(512), true);
    assert_eq!(model.max_tokens_param(), Some(512));
    model.set_max_tokens(Some(0), true);
    assert_eq!(model.max_output_tokens(), None);
    assert_eq!(model.max_tokens_param(), None);
    model.set_max_tokens(Some(-1), true);
    assert_eq!(model.max_tokens_param(), Some(-1));
    model.set_max_tokens(None, true);
    assert_eq!(model.max_tokens_param(), None);
    assert_eq!(model.set_max_tokens(Some(9), true).max_tokens_param(), Some(9));
    model.data_mut().max_input_tokens = Some(77);
    assert_eq!(model.max_input_tokens(), Some(77));
    assert_eq!(model.id(), "openai:gpt-4");
}

#[test]
fn tokens_of_messages() {
    let model = Model::new("openai", "gpt-4");
    assert_eq!(model.total_tokens(&[]), 0);
    assert_eq!(model.messages_tokens(&[]), 0);
    let user = vec![message(MessageRole::System, "be brief"), message(MessageRole::User, "hello world")];
    assert_eq!(model.messages_tokens(&user), 3 + 3);
    assert_eq!(model.total_tokens(&user), 2 * PER_MESSAGES_TOKENS + 6);
    let answered = vec![
        message(MessageRole::User, "hello world"),
        message(MessageRole::Assistant, "hi"),
    ];
    assert_eq!(model.total_tokens(&answered), PER_MESSAGES_TOKENS + 3 + 2);
    let parts = vec![Message {
        role: MessageRole::User,
        content: MessageContent::Array(vec!["hello world".to_string()]),
    }];
    assert_eq!(model.messages_tokens(&parts), 0);
    assert_eq!(model.total_tokens(&parts), PER_MESSAGES_TOKENS);
    assert!(MessageRole::User.is_user());
    assert!(!MessageRole::Assistant.is_user());
}

#[test]
fn input_token_limit() {
    let messages = vec![message(MessageRole::User, "hello world")];
    let total = PER_MESSAGES_TOKENS + 3 + BASIS_TOKENS;
    let mut model = Model::new("openai", "gpt-4");
    assert_eq!(model.max_input_tokens_limit(&messages), Ok(()));
    model.data.max_input_tokens = Some(total + 1);
    assert_eq!(model.max_input_tokens_limit(&messages), Ok(()));
    model.data.max_input_tokens = Some(total);
    assert_eq!(model.max_input_tokens_limit(&messages), Err(RagError::ExceedMaxInputTokens));
    model.data.max_input_tokens = Some(0);
    assert_eq!(model.max_input_tokens_limit(&[]), Err(RagError::ExceedMaxInputTokens));
    assert_eq!(RagError::ExceedMaxInputTokens.kind(), ErrorKind::LimitExceeded);
    assert_eq!(RagError::ExceedMaxInputTokens.message(), "Exceed max input tokens limit");
}

#[test]
fn openai_lists_its_models() {
    let config = OpenAIConfig::default();
    assert_eq!(OpenAIClient::name(&config), "openai");
    let models = OpenAIClient::list_models(&config, 3);
    let found: Vec<(&str, &str, Option<usize>, usize)> = models
        .iter()
        .map(|m| (m.client.as_str(), m.name.as_str(), m.max_tokens, m.index))
        .collect();
    assert_eq!(
        found,
        vec![
            ("openai", "gpt-3.5-turbo", Some(4096), 3),
            ("openai", "gpt-3.5-turbo-16k", Some(16384), 3),
            ("openai", "gpt-4", Some(8192), 3),
            ("openai", "gpt-4-32k", Some(32768), 3),
        ]
    );
    let named = OpenAIConfig { name: Some("work".to_string()), ..OpenAIConfig::default() };
    assert_eq!(OpenAIClient::name(&named), "work");
    assert!(OpenAIClient::list_models(&named, 0).iter().all(|m| m.client == "work" && m.index == 0));
    let info = ModelInfo::new("c", "n", None, 9);
    assert_eq!((info.client.as_str(), info.name.as_str(), info.max_tokens, info.index), ("c", "n", None, 9));
}

#[test]
fn code_block_fences() {
    assert_eq!(detect_code_block("```rust"), Some("rust".to_string()));
    assert_eq!(detect_code_block("```rust title=x"), Some("rust".to_string()));
    assert_eq!(detect_code_block("```c++"), Some("c".to_string()));
    assert_eq!(detect_code_block("```"), Some("".to_string()));
    assert_eq!(detect_code_block("``` rust"), Some("".to_string()));
    assert_eq!(detect_code_block("````"), Some("".to_string()));
    assert_eq!(detect_code_block("```\u{e9}t\u{e9}2"), Some("\u{e9}t\u{e9}2".to_string()));
    assert_eq!(detect_code_block("``rust"), None);
    assert_eq!(detect_code_block(" ```rust"), None);
    assert_eq!(detect_code_block(""), None);
}

fn kind(syntax: LineSyntax) -> String {
    match syntax {
        LineSyntax::Markdown => "md".to_string(),
        LineSyntax::Code(name) => format!("code:{}", name),
        LineSyntax::Plain => "plain".to_string(),
    }
}

#[test]
fn lines_are_highlighted_by_block() {
    let mut render = MarkdownRender::new();
    assert!(!render.code_block);
    let lines = ["# title", "```rust", "fn f() {}", "```", "text", "```", "raw", "```", "end"];
    let kinds: Vec<String> = lines.iter().map(|line| kind(render.render_line(line))).collect();
    assert_eq!(
        kinds,
        vec!["md", "md", "code:rust", "md", "md", "md", "plain", "md", "md"]
    );
    assert!(!render.code_block);
    assert_eq!(render.code_language, None);
    render.render_line("```py");
    assert!(render.code_block);
    assert_eq!(render.code_language, Some("py".to_string()));
}

#[test]
fn language_names_map_to_extensions() {
    assert_eq!(language_extension("rust"), Some("rs"));
    assert_eq!(language_extension("Python"), Some("py"));
    assert_eq!(language_extension("C#"), Some("cs"));
    assert_eq!(language_extension("objective-c"), Some("m"));
    assert_eq!(language_extension("objective-c++"), Some("mm"));
    assert_eq!(language_extension("tex"), Some("sty"));
    assert_eq!(language_extension("latex"), Some("tex"));
    assert_eq!(language_extension("rs"), None);
    assert_eq!(language_extension(""), None);
}

#[test]
fn streamed_text_is_held_until_a_line_ends() {
    let mut buffer = String::new();
    assert_eq!(feed_text(&mut buffer, "hel"), None);
    assert_eq!(buffer, "hel");
    assert_eq!(feed_text(&mut buffer, "lo"), None);
    assert_eq!(buffer, "hello");
    assert_eq!(feed_text(&mut buffer, " world\nnext"), Some("hello world".to_string()));
    assert_eq!(buffer, "next");
    assert_eq!(feed_text(&mut buffer, " a\nb\nc\n"), Some("next a\nb\nc".to_string()));
    assert_eq!(buffer, "");
    assert_eq!(feed_text(&mut buffer, "\n"), Some("".to_string()));
    assert_eq!(buffer, "");
    assert_eq!(feed_text(&mut buffer, ""), None);
    assert_eq!(buffer, "");
}

fn text(s: &str) -> Json {
    Json::Text(s.to_string())
}

fn object(entries: Vec<(&str, Json)>) -> Json {
    Json::Object(entries.into_iter().map(|(k, v)| Member { key: k.to_string(), value: v }).collect())
}

fn shape(value: &Json) -> String {
    match value {
        Json::Null => "null".to_string(),
        Json::Bool(b) => b.to_string(),
        Json::Number(n) => n.clone(),
        Json::Text(t) => format!("{:?}", t),
        Json::Array(items) => {
            format!("[{}]", items.iter().map(shape).collect::<Vec<_>>().join(","))
        }
        Json::Object(members) => format!(
            "{{{}}}",
            members.iter().map(|m| format!("{:?}:{}", m.key, shape(&m.value))).collect::<Vec<_>>().join(",")
        ),
    }
}

#[test]
fn extra_fields_are_merged_into_the_body() {
    let mut model = Model::new("openai", "gpt-4");
    model.data.extra_fields = match object(vec![
        ("top_p", Json::Number("0.9".to_string())),
        ("options", object(vec![("seed", Json::Number("7".to_string())), ("mode", text("b"))])),
        ("model", text("other")),
        ("stop", object(vec![("x", Json::Null)])),
    ]) {
        Json::Object(members) => Some(members),
        _ => None,
    };
    let mut body = object(vec![
        ("model", text("gpt-4")),
        ("options", object(vec![("mode", text("a"))])),
        ("stop", Json::Array(vec![text("end")])),
    ]);
    model.merge_extra_fields(&mut body);
    assert_eq!(
        shape(&body),
        r#"{"model":"gpt-4","options":{"mode":"a","seed":7},"stop":["end"],"top_p":0.9}"#
    );
    let copy = clone_json(&body);
    assert_eq!(shape(&copy), shape(&body));
    assert_eq!(shape(&model.clone().data.extra_fields.map(Json::Object).unwrap()),
        shape(&model.data.extra_fields.clone().map(Json::Object).unwrap()));
}

#[test]
fn bodies_without_fields_or_objects_stay() {
    let fields = match object(vec![("a", Json::Bool(true))]) {
        Json::Object(members) => Some(members),
        _ => None,
    };
    let mut body = Json::Array(vec![Json::Null]);
    merge_fields(&fields, &mut body);
    assert_eq!(shape(&body), "[null]");
    let mut body = object(vec![("a", Json::Bool(false))]);
    merge_fields(&None, &mut body);
    assert_eq!(shape(&body), r#"{"a":false}"#);
    merge_fields(&fields, &mut body);
    assert_eq!(shape(&body), r#"{"a":false}"#);
    let mut body = object(vec![]);
    merge_fields(&fields, &mut body);
    assert_eq!(shape(&body), r#"{"a":true}"#);
    Model::new("c", "m").merge_extra_fields(&mut body);
    assert_eq!(shape(&body), r#"{"a":true}"#);
}
