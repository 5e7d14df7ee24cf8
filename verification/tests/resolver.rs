use tome::errors::McpError;
use tome::http::{default_method, HttpMethod};
use tome::mcp::{bootstrap, get_os_specific_command};
use tome::models::{ChatMessage, ChatResponse, ClientOptions, Engine, OllamaModel, OpenAIModel};

#[test]
fn supported_runtimes_resolve_to_their_own_names() {
    for runtime in ["python", "uvx", "node", "npx", "bunx"] {
        let r = get_os_specific_command(runtime);
        assert_eq!(r.unwrap(), runtime.to_string());
    }
}

#[test]
fn unsupported_runtime_is_rejected_with_its_name() {
    let r = get_os_specific_command("ruby");
    match r {
        Err(McpError::UnsupportedRuntime(name)) => assert_eq!(name, "ruby".to_string()),
        _ => panic!("expected UnsupportedRuntime"),
    }
    assert!(matches!(
        get_os_specific_command(""),
        Err(McpError::UnsupportedRuntime(_))
    ));
}

#[test]
fn bootstrap_probes_the_optional_runtimes() {
    let probes = bootstrap();
    assert_eq!(probes.len(), 2);
    assert_eq!(probes[0].runtime, "uvx".to_string());
    assert_eq!(probes[1].runtime, "npx".to_string());
    for p in &probes {
        assert_eq!(p.arg, "--help".to_string());
    }
}

#[test]
fn default_request_method_is_get() {
    assert_eq!(default_method(), HttpMethod::GET);
}

#[test]
fn data_models_hold_their_fields() {
    let engine = Engine {
        id: 3,
        name: "local".to_string(),
        kind: "ollama".to_string(),
        options: ClientOptions { url: Some("http://localhost:11434".to_string()), api_key: None },
    };
    assert_eq!(engine.options.url.as_deref(), Some("http://localhost:11434"));
    let chunk = ChatResponse {
        message: ChatMessage { role: "assistant".to_string(), content: "hi".to_string() },
        done: true,
    };
    assert!(chunk.done);
    assert_eq!(chunk.message.content, "hi".to_string());
    assert_eq!(OllamaModel { name: "llama".to_string() }.name, "llama".to_string());
    assert_eq!(OpenAIModel { id: "gpt".to_string() }.id, "gpt".to_string());
}
