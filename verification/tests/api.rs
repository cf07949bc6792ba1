use serde_json::Value;
use sloop::api::{Api, Request};
use sloop::tree::{ContentBlock, Message, Role, Tree};

fn string(text: &str) -> Value {
    Value::String(text.to_owned())
}

fn object(fields: Vec<(&str, Value)>) -> Value {
    let mut map = serde_json::Map::new();
    for (name, value) in fields {
        map.insert(name.to_owned(), value);
    }
    Value::Object(map)
}

fn message(m: &Message) -> Value {
    let role = match m.role {
        Role::User => "user",
        Role::Assistant => "assistant",
    };
    let content = m
        .content
        .iter()
        .map(|block| match block {
            ContentBlock::Text { text } => {
                object(vec![("type", string("text")), ("text", string(text))])
            }
            ContentBlock::Thinking { thinking, signature } => object(vec![
                ("type", string("thinking")),
                ("thinking", string(thinking)),
                ("signature", string(signature)),
            ]),
        })
        .collect();
    object(vec![("role", string(role)), ("content", Value::Array(content))])
}

/// The body as it goes out.
fn body(request: &Request) -> Value {
    let Request { model, max_tokens, stream, thinking, messages } = request;
    object(vec![
        ("model", string(model)),
        ("max_tokens", Value::from(*max_tokens)),
        ("stream", Value::Bool(*stream)),
        (
            "thinking",
            object(vec![("type", string(thinking.kind)), ("display", string(thinking.display))]),
        ),
        ("messages", Value::Array(messages.iter().map(message).collect())),
    ])
}

#[test]
fn a_missing_key_says_which_variable_to_set() {
    let Err(message) = Api::from_key(None) else {
        panic!("a missing key was accepted");
    };

    assert!(message.contains("ANTHROPIC_API_KEY"), "{message}");
    assert!(message.contains("export ANTHROPIC_API_KEY="), "{message}");
}

#[test]
fn a_key_that_is_present_is_the_one_kept() {
    let Ok(api) = Api::from_key(Some("sk-ant-test".to_owned())) else {
        panic!("a key that was present was rejected");
    };

    assert_eq!(api.key(), "sk-ant-test");
}

#[test]
fn the_request_body_has_the_shape_the_api_expects() {
    let tree = Tree::new(ContentBlock::text("hi"));
    let messages = tree.prompt_for(tree.root()).unwrap();

    let wanted: Value = serde_json::from_str(
        r#"{
            "model": "a-model",
            "max_tokens": 64000,
            "stream": true,
            "thinking": { "type": "adaptive", "display": "summarized" },
            "messages": [{ "role": "user", "content": [{ "type": "text", "text": "hi" }] }]
        }"#,
    )
    .unwrap();
    assert_eq!(body(&Request::new("a-model", &messages)), wanted);
}

#[test]
fn the_request_names_no_budget_and_no_effort() {
    let tree = Tree::new(ContentBlock::text("hi"));
    let messages = tree.prompt_for(tree.root()).unwrap();
    let body = body(&Request::new("a-model", &messages)).to_string();

    assert!(!body.contains("budget_tokens"));
    assert!(!body.contains("output_config"));
}
