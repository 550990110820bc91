use objtalk::admin::{get_mime_type, remove_first_slash};
use objtalk::client::HttpClient;

#[test]
fn mime_types_by_extension() {
    assert_eq!(get_mime_type("index.html"), "text/html");
    assert_eq!(get_mime_type("_assets/app.js"), "application/javascript; charset=UTF-8");
    assert_eq!(get_mime_type("_assets/style.css"), "text/css; charset=UTF-8");
    assert_eq!(get_mime_type("fonts/a.woff2"), "font/woff2");
    assert_eq!(get_mime_type("image.png"), "application/octet-stream");
    assert_eq!(get_mime_type("README"), "application/octet-stream");
    assert_eq!(get_mime_type(".html"), "application/octet-stream");
    assert_eq!(get_mime_type("a.b/html"), "application/octet-stream");
    assert_eq!(get_mime_type("archive.tar.js"), "application/javascript; charset=UTF-8");
}

#[test]
fn first_character_removed() {
    assert_eq!(remove_first_slash("/_assets/app.js"), "_assets/app.js");
    assert_eq!(remove_first_slash(""), "");
    assert_eq!(remove_first_slash("/"), "");
}

#[test]
fn http_client_keeps_url() {
    let c = HttpClient::new("http://localhost:3000");
    assert_eq!(c.url(), "http://localhost:3000");
}
