use taghint::translate::extract_translation;
use taghint::translate::TranslateCache;

fn translate_offline(cache: &mut TranslateCache, q: &str, requests: &mut u32) -> String {
    match cache.lookup(q) {
        Some(x) => x,
        None => {
            *requests += 1;
            let body = format!("<div class=\"result-container\">hola {}</div>", q);
            let x = extract_translation(&body);
            cache.store(q, x.clone());
            x
        }
    }
}

#[test]
fn second_call_hits_cache() {
    let mut cache = TranslateCache::new();
    let mut requests: u32 = 0;
    let first = translate_offline(&mut cache, "hello", &mut requests);
    let second = translate_offline(&mut cache, "hello", &mut requests);
    assert_eq!(requests, 1);
    assert_eq!(first, second);
    cache.clear();
    let third = translate_offline(&mut cache, "hello", &mut requests);
    assert_eq!(requests, 2);
    assert_eq!(third, first);
}

#[test]
fn marker_extraction() {
    assert_eq!(extract_translation("junk \"result-container\">hola</div> tail"), "hola");
    assert_eq!(extract_translation("no marker here"), "");
    assert_eq!(
        extract_translation("\"result-container\">a</div> \"result-container\">b</div>"),
        "a"
    );
    assert_eq!(extract_translation("\"result-container\"></div>"), "");
}

#[test]
fn failed_translation_cached_as_empty() {
    let mut cache = TranslateCache::new();
    let text = extract_translation("garbled response");
    cache.store("hi", text);
    assert_eq!(cache.lookup("hi"), Some(String::new()));
}

#[test]
fn cache_keyed_by_exact_text() {
    let mut cache = TranslateCache::new();
    cache.store("Hello", "Hola".to_string());
    assert_eq!(cache.lookup("hello"), None);
    assert_eq!(cache.lookup("Hello"), Some("Hola".to_string()));
}

#[test]
fn store_overwrites_prior_entry() {
    let mut cache = TranslateCache::new();
    cache.store("x", "first".to_string());
    cache.store("x", "second".to_string());
    assert_eq!(cache.lookup("x"), Some("second".to_string()));
}

#[test]
fn default_cache_is_empty() {
    let cache = TranslateCache::default();
    assert_eq!(cache.lookup("anything"), None);
}
