//! Tests for the resource-naming helpers.

use klok::naming::default_extensions;
use klok::naming::effective_extensions;
use klok::naming::playlist_entry;
use klok::with_extension;

#[test]
fn keeps_filename_that_already_has_the_extension() {
    assert_eq!(with_extension("song.lrc", ".lrc"), "song.lrc");
}

#[test]
fn swaps_a_common_audio_extension() {
    assert_eq!(with_extension("song.mp3", ".lrc"), "song.lrc");
    assert_eq!(with_extension("song.m4a", ".lrc"), "song.lrc");
    assert_eq!(with_extension("song.flac", ".lrc"), "song.lrc");
}

#[test]
fn appends_when_no_known_extension_matches() {
    assert_eq!(with_extension("song.wav", ".lrc"), "song.wav.lrc");
    assert_eq!(with_extension("song", ".lrc"), "song.lrc");
}

#[test]
fn with_extension_handles_multibyte_names() {
    assert_eq!(with_extension("好听的歌.mp3", ".lrc"), "好听的歌.lrc");
}

#[test]
fn default_extension_list_is_the_common_three() {
    let exts = default_extensions();
    assert_eq!(exts, vec![".mp3".to_string(), ".m4a".to_string(), ".flac".to_string()]);
}

#[test]
fn effective_extensions_fall_back_when_empty_or_absent() {
    assert_eq!(effective_extensions(None).len(), 3);
    assert_eq!(effective_extensions(Some(vec![])).len(), 3);
    let own = vec![".ogg".to_string()];
    assert_eq!(effective_extensions(Some(own.clone())), own);
}

#[test]
fn playlist_entry_accepts_listed_extension() {
    let exts = default_extensions();
    let item = playlist_entry("song", "song.mp3", ".mp3", &exts).unwrap();
    assert_eq!(item.title, "song");
    assert_eq!(item.url, "song.mp3");
    assert!(item.artist.is_none());
}

#[test]
fn playlist_entry_rejects_unlisted_extension() {
    let exts = default_extensions();
    assert!(playlist_entry("song", "song.ogg", ".ogg", &exts).is_none());
}

#[test]
fn playlist_entry_filters_stem_suffixes() {
    let exts = default_extensions();
    assert!(playlist_entry("song_vocals", "song_vocals.mp3", ".mp3", &exts).is_none());
    assert!(playlist_entry("song_non_vocals", "song_non_vocals.mp3", ".mp3", &exts).is_none());
    assert!(playlist_entry("vocalsong", "vocalsong.mp3", ".mp3", &exts).is_some());
}
