use albion_translator::translator::shown_language;
use albion_translator::translator::{
    cache_key, clean_chat_text, fallback_text, gtx_text, html_unescape, mobile_text,
    prepare_text, Json, MobileError,
};

#[test]
fn clean_removes_ffff_markers() {
    assert_eq!(
        clean_chat_text("\u{ffff}SEASONPOINTS\u{ffff} RECLUTO"),
        "SEASONPOINTS RECLUTO"
    );
    assert_eq!(clean_chat_text("plain"), "plain");
    assert_eq!(clean_chat_text(""), "");
}

#[test]
fn unescape_named_and_numeric_entities() {
    assert_eq!(html_unescape("a &amp; b"), "a & b");
    assert_eq!(html_unescape("&lt;b&gt; &quot;x&quot; &apos;y&apos;&nbsp;z"), "<b> \"x\" 'y' z");
    assert_eq!(html_unescape("it&#39;s &#x27;q&#X27;"), "it's 'q'");
    assert_eq!(html_unescape("&#128512;"), "\u{1F600}");
    assert_eq!(html_unescape("fish & chips"), "fish & chips");
    assert_eq!(html_unescape("&unknown;"), "&unknown;");
    assert_eq!(html_unescape("&#xD800;"), "&#xD800;");
    assert_eq!(html_unescape("&#x110000;"), "&#x110000;");
    assert_eq!(html_unescape("&amp"), "&amp");
    assert_eq!(html_unescape("&averyveryverylongname;"), "&averyveryverylongname;");
    assert_eq!(html_unescape("&&amp;"), "&&");
    assert_eq!(html_unescape("&#+65;"), "A");
}

#[test]
fn prepare_gates_short_links_and_mentions() {
    assert_eq!(prepare_text("  hola amigos \u{ffff}"), Some("hola amigos".to_string()));
    assert_eq!(prepare_text(" a "), None);
    assert_eq!(prepare_text("é"), Some("é".to_string()));
    assert_eq!(prepare_text("http://x.y"), None);
    assert_eq!(prepare_text("@someone hi"), None);
    assert_eq!(prepare_text("\u{ffff}\u{ffff}"), None);
}

#[test]
fn cache_keys_and_fallbacks() {
    assert_eq!(cache_key(Some("es"), "en", "hola"), "es:en:hola");
    assert_eq!(cache_key(None, "en", "hola"), "auto:en:hola");
    assert_eq!(fallback_text(Some("pl"), "cześć"), "[pl] cześć");
    assert_eq!(fallback_text(None, "xyz"), "[unknown] xyz");
}

fn s(t: &str) -> Json {
    Json::Str(t.to_string())
}

#[test]
fn gtx_reply_segments_are_joined() {
    let raw = Json::Array(vec![
        Json::Array(vec![
            Json::Array(vec![s("Hello. "), s("Hola. "), Json::Null]),
            Json::Array(vec![s("How are you?"), s("¿Cómo estás?")]),
            Json::Array(vec![Json::Null]),
        ]),
        Json::Null,
        s("es"),
    ]);
    assert_eq!(gtx_text(&raw, "Hola. ¿Cómo estás?"), "Hello. How are you?");
    assert_eq!(gtx_text(&Json::Null, "orig"), "orig");
    assert_eq!(gtx_text(&Json::Array(vec![Json::Array(vec![])]), "orig"), "orig");
    assert_eq!(gtx_text(&Json::Object(vec![]), "orig"), "orig");
}

#[test]
fn mobile_page_result_is_extracted() {
    let html = "<html><div class=\"result-container\">  Hello &amp; welcome </div></html>";
    assert_eq!(mobile_text(html), Ok("Hello & welcome".to_string()));
    assert_eq!(mobile_text("<div class=\"af-error-page\">"), Err(MobileError::ErrorPage));
    assert_eq!(mobile_text("<html></html>"), Err(MobileError::NoResult));
    assert_eq!(
        mobile_text("<div class=\"result-container\"><span>x</span></div>"),
        Err(MobileError::Markup)
    );
    assert_eq!(mobile_text("<div class=\"result-container\">   </div>"), Err(MobileError::Markup));
    assert_eq!(mobile_text("<div class=\"result-container\">tail"), Ok("tail".to_string()));
    assert_eq!(MobileError::NoResult.message(), "no result-container in /m response");
}

use albion_translator::glossary::{apply_glossary, try_apply_glossary};
use albion_translator::translator::{after_backend, first_backend, Backend, FlowStep};

#[test]
fn glossary_replaces_whole_words_case_insensitively() {
    assert_eq!(apply_glossary("lfg for the ho run"), "looking for group for the hideout run");
    assert_eq!(apply_glossary("we need a t8 healer"), "we need a tier 8 healer");
    // "ho" inside "hold" is not a whole word: nothing is replaced.
    assert_eq!(apply_glossary("hold your position"), "hold your position");
    // Only the first occurrence is looked at.
    assert_eq!(apply_glossary("WTS, WTS"), "want to sell, WTS");
    assert_eq!(try_apply_glossary("plain text"), Some("plain text".to_string()));
}

#[test]
fn backends_are_tried_in_order_and_fallback_is_not_cached() {
    assert_eq!(first_backend(true), Backend::Local);
    assert_eq!(first_backend(false), Backend::Gtx);
    assert!(matches!(after_backend(Backend::Local, None, "k", "t", None), FlowStep::Try(Backend::Gtx)));
    assert!(matches!(after_backend(Backend::Gtx, None, "k", "t", None), FlowStep::Try(Backend::Mobile)));
    match after_backend(Backend::Mobile, None, "k", "hola", Some("es")) {
        FlowStep::Done { shown, cache } => {
            assert_eq!(shown, "[es] hola");
            assert!(cache.is_none());
        }
        other => panic!("unexpected {:?}", other),
    }
    match after_backend(Backend::Gtx, Some("lfg now".to_string()), "es:en:x", "x", None) {
        FlowStep::Done { shown, cache } => {
            assert_eq!(shown, "looking for group now");
            assert_eq!(cache, Some(("es:en:x".to_string(), "lfg now".to_string())));
        }
        other => panic!("unexpected {:?}", other),
    }
}

use albion_translator::translator::{gtx_url, language_code, mobile_url};

#[test]
fn request_addresses_percent_encode_the_text() {
    assert_eq!(
        gtx_url("en", "hola amigo"),
        "https://translate.googleapis.com/translate_a/single?client=gtx&sl=auto&tl=en&dt=t&q=hola%20amigo"
    );
    assert_eq!(
        mobile_url("de", "é-x_y.z~!"),
        "https://translate.google.com/m?sl=auto&tl=de&q=%C3%A9-x_y.z~%21"
    );
}

#[test]
fn language_codes_shown() {
    assert_eq!(language_code("es"), "es");
    assert_eq!(language_code("uk"), "uk");
    assert_eq!(language_code("ro"), "unknown");
    assert_eq!(language_code(""), "unknown");
}

#[test]
fn text_without_ampersand_is_unchanged() {
    assert_eq!(html_unescape("plain text; nothing <here>"), "plain text; nothing <here>");
    let once = clean_chat_text("a\u{ffff}b");
    assert_eq!(clean_chat_text(&once), once);
}

#[test]
fn detector_answers_are_shown_as_codes() {
    assert_eq!(shown_language(Some("es".to_string())), Some("es".to_string()));
    assert_eq!(shown_language(Some("ro".to_string())), Some("unknown".to_string()));
    assert_eq!(shown_language(None), None);
}
