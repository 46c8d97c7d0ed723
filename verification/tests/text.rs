use ankifruit_core::devtools::find_arg;
use ankifruit_core::devtools::inject_config;
use ankifruit_core::devtools::parse_port;
use ankifruit_core::devtools::strip_verbatim_prefix;
use ankifruit_core::langs::parse_langs;
use ankifruit_core::langs::preferred_langs;

fn args(v: &[&str]) -> Vec<String> {
    v.iter().map(|s| s.to_string()).collect()
}

#[test]
fn language_lists() {
    assert_eq!(parse_langs("en,ja"), vec!["en", "ja"]);
    assert_eq!(parse_langs(" en_US , ja ,, "), vec!["en_US", "ja"]);
    assert_eq!(parse_langs(""), Vec::<String>::new());
    assert_eq!(parse_langs(",,,"), Vec::<String>::new());
    assert_eq!(parse_langs("de"), vec!["de"]);
    assert_eq!(parse_langs("\u{3000}fr\t,\u{a0}pt-BR\n"), vec!["fr", "pt-BR"]);
    assert_eq!(parse_langs("zh CN"), vec!["zh CN"]);
}

#[test]
fn default_language_is_english() {
    assert_eq!(preferred_langs(None), vec!["en"]);
    assert_eq!(preferred_langs(Some("ja")), vec!["ja"]);
    assert_eq!(preferred_langs(Some("")), Vec::<String>::new());
}

#[test]
fn options_take_either_form() {
    let a = args(&["dev", "--web-root=/srv/ui", "--port", "8080"]);
    assert_eq!(find_arg(&a, "web-root").as_deref(), Some("/srv/ui"));
    assert_eq!(find_arg(&a, "port").as_deref(), Some("8080"));
    assert_eq!(find_arg(&a, "data-dir"), None);
}

#[test]
fn options_edge_cases() {
    // the program name is not an option
    assert_eq!(find_arg(&args(&["--port=1"]), "port"), None);
    // a flag with nothing after it gives nothing, even if it recurs later
    assert_eq!(find_arg(&args(&["dev", "--port"]), "port"), None);
    // the first occurrence wins
    assert_eq!(find_arg(&args(&["dev", "--port=1", "--port=2"]), "port").as_deref(), Some("1"));
    // an empty value
    assert_eq!(find_arg(&args(&["dev", "--port="]), "port").as_deref(), Some(""));
    // a longer option of the same prefix does not match
    assert_eq!(find_arg(&args(&["dev", "--portal", "x"]), "port"), None);
    // the value may itself look like an option
    assert_eq!(find_arg(&args(&["dev", "--port", "--x"]), "port").as_deref(), Some("--x"));
}

#[test]
fn port_values() {
    assert_eq!(parse_port("0"), Some(0));
    assert_eq!(parse_port("8080"), Some(8080));
    assert_eq!(parse_port("+80"), Some(80));
    assert_eq!(parse_port("65535"), Some(65535));
    assert_eq!(parse_port("065535"), Some(65535));
    assert_eq!(parse_port("65536"), None);
    assert_eq!(parse_port("99999999999999999999"), None);
    assert_eq!(parse_port(""), None);
    assert_eq!(parse_port("+"), None);
    assert_eq!(parse_port("-1"), None);
    assert_eq!(parse_port("-0"), None);
    assert_eq!(parse_port("8o"), None);
    assert_eq!(parse_port(" 80"), None);
    for s in ["0", "1", "80", "+7", "65535", "65536", "", "+", "-0", "1a", "00012"] {
        assert_eq!(parse_port(s), s.parse::<u16>().ok(), "{s}");
    }
}

#[test]
fn verbatim_paths() {
    assert_eq!(strip_verbatim_prefix(r"\\?\C:\dev\data"), r"C:\dev\data");
    assert_eq!(strip_verbatim_prefix("/home/me/devdata"), "/home/me/devdata");
    assert_eq!(strip_verbatim_prefix(r"\\?"), r"\\?");
}

#[test]
fn config_goes_before_the_head_closes() {
    let page = "<html><head><title>AnkiFruit</title></head><body></body></html>";
    let out = inject_config(page, "<script>x</script>");
    assert_eq!(
        out,
        "<html><head><title>AnkiFruit</title><script>x</script></head><body></body></html>"
    );
    assert_eq!(inject_config("<!doctype html><title>AnkiFruit</title>", "<s>"), "<s><!doctype html><title>AnkiFruit</title>");
    assert_eq!(inject_config("a</head>b</head>", "X"), "aX</head>b</head>");
    assert_eq!(inject_config("", "X"), "X");
    assert_eq!(inject_config("</head", "X"), "X</head");
}
