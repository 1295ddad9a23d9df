use handlr::Error;
use handlr::handler::Handler;
use handlr::mime_type::MimeType;
use handlr::user::MimeApps;

#[test]
fn wildcard_mimes() -> Result<(), Error> {
    let mut user_apps = MimeApps::default();
    user_apps.add_handler(
        MimeType::parse("video/*").unwrap(),
        Handler::assume_valid("mpv.desktop".into()),
    );
    user_apps.add_handler(
        MimeType::parse("video/webm").unwrap(),
        Handler::assume_valid("brave.desktop".into()),
    );

    assert_eq!(
        user_apps
            .get_handler(&MimeType::parse("video/mp4")?)?
            .to_string(),
        "mpv.desktop"
    );
    assert_eq!(
        user_apps
            .get_handler(&MimeType::parse("video/asdf")?)?
            .to_string(),
        "mpv.desktop"
    );

    assert_eq!(
        user_apps
            .get_handler(&MimeType::parse("video/webm")?)?
            .to_string(),
        "brave.desktop"
    );

    Ok(())
}
