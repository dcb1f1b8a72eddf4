use hestia::media::{
    byte_range, plan_video, preview_text, route_media, video_mime, Kind, MediaRoute,
    PreviewError, VideoError, VideoMime, VideoResponse, RANGE_CHUNK, TEXT_LIMIT,
};

#[test]
fn preview_loading() {
    let text = b"# Heading\n\nFull text, not an excerpt.";
    let kind = Kind::for_path(b"/tmp/notes.MD").unwrap();
    assert_eq!(
        (kind, preview_text(kind, text).unwrap()),
        (
            Kind::Markdown,
            "# Heading\n\nFull text, not an excerpt.".to_string()
        )
    );
    assert!(preview_text(kind, &[0xff]).is_err());
    assert!(preview_text(kind, &vec![b'x'; TEXT_LIMIT as usize + 1]).is_err());
    assert_eq!(Kind::for_path(b"photo.JPEG"), Some(Kind::Image));
    assert_eq!(Kind::for_path(b"clip.MOV"), Some(Kind::Video));
    assert_eq!(Kind::for_path(b"app.exe"), None);
    let video = Kind::for_path(b"/tmp/clip.mp4").unwrap();
    assert_eq!(
        (video, preview_text(video, b"0123456789").unwrap()),
        (Kind::Video, String::new())
    );
}

#[test]
fn text_previews_report_why_they_fail() {
    assert_eq!(preview_text(Kind::Text, &[0xff]), Err(PreviewError::NotUtf8));
    assert_eq!(
        preview_text(Kind::Text, &vec![b'x'; TEXT_LIMIT as usize + 1]),
        Err(PreviewError::TooLarge)
    );
    assert_eq!(
        preview_text(Kind::Text, &vec![b'x'; TEXT_LIMIT as usize]).unwrap().len(),
        TEXT_LIMIT as usize
    );
    assert_eq!(preview_text(Kind::Image, &[0xff]), Ok(String::new()));
    assert!(Kind::Markdown.shows_text() && Kind::Text.shows_text());
    assert!(!Kind::Image.shows_text() && !Kind::Video.shows_text());
}

#[test]
fn video_ranges() {
    assert_eq!(byte_range(Some("bytes=2-4"), 10), Some((2, 4)));
    assert_eq!(byte_range(Some("bytes=5-"), 10), Some((5, 9)));
    assert_eq!(byte_range(Some("bytes=-3"), 10), Some((7, 9)));
    assert_eq!(byte_range(Some("bytes=8-99"), 10), Some((8, 9)));
    assert_eq!(
        byte_range(Some("bytes=0-"), u64::MAX),
        Some((0, 8 * 1024 * 1024 - 1))
    );
    for range in [
        "bytes=10-",
        "bytes=5-2",
        "bytes=-0",
        "bytes=0-1,3-4",
        "nonsense",
    ] {
        assert_eq!(byte_range(Some(range), 10), None);
    }
    assert_eq!(byte_range(None, 0), None);
    assert_eq!(
        plan_video(b"/tmp/clip.mp4", false, Some("bytes=2-4"), 10),
        Ok(VideoResponse::Content {
            partial: true,
            start: 2,
            end: 4,
            len: 10,
            mime: VideoMime::Mp4,
            send_body: true,
        })
    );
    assert_eq!(route_media("GET", "/etc/passwd"), MediaRoute::NotFound);
}

#[test]
fn range_numbers_parse_like_unsigned_integers() {
    assert_eq!(byte_range(Some("bytes=+2-+4"), 10), Some((2, 4)));
    assert_eq!(byte_range(Some("bytes=-+3"), 10), Some((7, 9)));
    assert_eq!(byte_range(Some("bytes=-20"), 10), Some((0, 9)));
    assert_eq!(byte_range(Some("bytes=2--4"), 10), None);
    assert_eq!(byte_range(Some("bytes=+-4"), 10), None);
    assert_eq!(byte_range(Some("bytes=-"), 10), None);
    assert_eq!(byte_range(Some("bytes=2"), 10), None);
    assert_eq!(byte_range(Some("Bytes=2-4"), 10), None);
    assert_eq!(byte_range(Some("bytes= 2-4"), 10), None);
    assert_eq!(byte_range(Some("bytes=18446744073709551616-"), 10), None);
    assert_eq!(
        byte_range(Some("bytes=1-18446744073709551615"), 10),
        Some((1, 9))
    );
    assert_eq!(byte_range(None, 10), Some((0, 9)));
}

#[test]
fn range_requests_are_answered_in_chunks() {
    let len = 100 * 1024 * 1024;
    assert_eq!(
        byte_range(Some("bytes=10-"), len),
        Some((10, 10 + RANGE_CHUNK - 1))
    );
    assert_eq!(byte_range(None, len), Some((0, len - 1)));
    assert_eq!(
        byte_range(Some("bytes=-5"), len),
        Some((len - 5, len - 1))
    );
}

#[test]
fn video_answers_follow_the_request() {
    assert_eq!(
        plan_video(b"/v/a.webm", true, None, 10),
        Ok(VideoResponse::Content {
            partial: false,
            start: 0,
            end: 9,
            len: 10,
            mime: VideoMime::WebM,
            send_body: false,
        })
    );
    assert_eq!(
        plan_video(b"/v/a.mov", false, Some("bytes=20-"), 10),
        Ok(VideoResponse::Unsatisfiable { len: 10 })
    );
    assert_eq!(
        plan_video(b"/v/a.mp4", false, None, 64 * 1024 * 1024 + 1),
        Err(VideoError::RangesRequired)
    );
    assert!(plan_video(b"/v/a.mp4", false, None, 64 * 1024 * 1024).is_ok());
    assert_eq!(route_media("GET", "/"), MediaRoute::Player);
    assert_eq!(route_media("HEAD", "/video"), MediaRoute::Video);
    assert_eq!(route_media("POST", "/video"), MediaRoute::MethodNotAllowed);
    assert_eq!(video_mime(b"/v/a.OGV"), VideoMime::Ogg);
    assert_eq!(video_mime(b"/v/a.MOV").as_str(), "video/quicktime");
    assert_eq!(video_mime(b"/v/noext"), VideoMime::Mp4);
    assert_eq!(video_mime(b"/v/a.mkv").as_str(), "video/mp4");
}
