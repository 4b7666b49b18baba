//! Naming helpers for audio resources: swapping a filename's audio
//! extension, and deciding which directory entries belong in a playlist.

use vstd::prelude::*;
use vstd::string::StrSliceExecFns;
use vstd::string::StringExecFns;

verus! {

/// `suffix` is the tail of `s`.
pub open spec fn seq_ends_with(s: Seq<char>, suffix: Seq<char>) -> bool {
    s.len() >= suffix.len() && s.subrange(s.len() - suffix.len(), s.len() as int) == suffix
}

pub open spec fn chars_mp3() -> Seq<char> {
    seq!['.', 'm', 'p', '3']
}

pub open spec fn chars_m4a() -> Seq<char> {
    seq!['.', 'm', '4', 'a']
}

pub open spec fn chars_flac() -> Seq<char> {
    seq!['.', 'f', 'l', 'a', 'c']
}

/// What `with_extension` returns: the filename unchanged when it already
/// carries the wanted extension; with its audio extension swapped for the
/// wanted one when it carries one of the common three; with the wanted
/// extension appended otherwise.
pub open spec fn spec_with_extension(f: Seq<char>, e: Seq<char>) -> Seq<char> {
    if seq_ends_with(f, e) {
        f
    } else if seq_ends_with(f, chars_mp3()) {
        f.subrange(0, f.len() - 4) + e
    } else if seq_ends_with(f, chars_m4a()) {
        f.subrange(0, f.len() - 4) + e
    } else if seq_ends_with(f, chars_flac()) {
        f.subrange(0, f.len() - 5) + e
    } else {
        f + e
    }
}

/// Character-exact suffix test.
fn str_ends_with(s: &str, suffix: &str) -> (r: bool)
    ensures
        r == seq_ends_with(s@, suffix@),
{
    let n: usize = s.unicode_len();
    let m: usize = suffix.unicode_len();
    if m > n {
        return false;
    }
    let mut k: usize = 0;
    while k < m
        invariant
            k <= m <= n,
            n == s@.len(),
            m == suffix@.len(),
            forall|l: int| 0 <= l < k ==> s@[n - m + l] == suffix@[l],
        decreases m - k,
    {
        let cs = s.get_char(n - m + k);
        let cf = suffix.get_char(k);
        if cs != cf {
            proof {
                if seq_ends_with(s@, suffix@) {
                    assert(s@.subrange(n - m, n as int)[k as int] == suffix@[k as int]);
                }
            }
            return false;
        }
        k += 1;
    }
    proof {
        assert(s@.subrange(n - m, n as int) =~= suffix@);
    }
    true
}

/// Character-exact string equality.
fn chars_eq(a: &str, b: &str) -> (r: bool)
    ensures
        r == (a@ == b@),
{
    let n: usize = a.unicode_len();
    let m: usize = b.unicode_len();
    if n != m {
        return false;
    }
    let mut k: usize = 0;
    while k < n
        invariant
            k <= n,
            n == a@.len(),
            n == b@.len(),
            forall|l: int| 0 <= l < k ==> a@[l] == b@[l],
        decreases n - k,
    {
        if a.get_char(k) != b.get_char(k) {
            return false;
        }
        k += 1;
    }
    proof {
        assert(a@ =~= b@);
    }
    true
}

/// Return `filename` bearing `extension`: unchanged when it already ends
/// with it, with a common audio extension swapped out when it carries one,
/// with `extension` appended otherwise.
pub fn with_extension(filename: &str, extension: &str) -> (r: String)
    ensures
        r@ == spec_with_extension(filename@, extension@),
{
    if str_ends_with(filename, extension) {
        return filename.to_owned();
    }
    let n: usize = filename.unicode_len();
    if str_ends_with(filename, ".mp3") {
        proof {
            reveal_strlit(".mp3");
            assert(".mp3"@ =~= chars_mp3());
        }
        let stem = filename.substring_char(0, n - 4);
        let mut out = stem.to_owned();
        out.append(extension);
        return out;
    }
    if str_ends_with(filename, ".m4a") {
        proof {
            reveal_strlit(".m4a");
            assert(".m4a"@ =~= chars_m4a());
        }
        let stem = filename.substring_char(0, n - 4);
        let mut out = stem.to_owned();
        out.append(extension);
        return out;
    }
    if str_ends_with(filename, ".flac") {
        proof {
            reveal_strlit(".flac");
            assert(".flac"@ =~= chars_flac());
        }
        let stem = filename.substring_char(0, n - 5);
        let mut out = stem.to_owned();
        out.append(extension);
        return out;
    }
    proof {
        reveal_strlit(".mp3");
        reveal_strlit(".m4a");
        reveal_strlit(".flac");
        assert(".mp3"@ =~= chars_mp3());
        assert(".m4a"@ =~= chars_m4a());
        assert(".flac"@ =~= chars_flac());
    }
    let mut out = filename.to_owned();
    out.append(extension);
    out
}

/// One playlist entry: the display title, the file name it is reached by,
/// and an artist the directory scan does not know.
pub struct PlaylistItem {
    pub title: String,
    pub url: String,
    pub artist: Option<String>,
}

pub open spec fn chars_vocals() -> Seq<char> {
    seq!['v', 'o', 'c', 'a', 'l', 's']
}

pub open spec fn chars_non_vocals() -> Seq<char> {
    seq!['n', 'o', 'n', '_', 'v', 'o', 'c', 'a', 'l', 's']
}

/// Titles that name a separated stem rather than a song.
pub open spec fn unexpected_title(t: Seq<char>) -> bool {
    seq_ends_with(t, chars_non_vocals()) || seq_ends_with(t, chars_vocals())
}

/// The extension (with its dot) appears in the accepted list.
pub open spec fn ext_listed(exts: Seq<String>, dot_ext: Seq<char>) -> bool {
    exists|i: int| 0 <= i < exts.len() && #[trigger] exts[i]@ == dot_ext
}

/// The common audio extension list used when a caller names none.
pub open spec fn is_default_exts(s: Seq<String>) -> bool {
    s.len() == 3 && s[0]@ == chars_mp3() && s[1]@ == chars_m4a() && s[2]@ == chars_flac()
}

/// The common audio extensions, in order.
pub fn default_extensions() -> (r: Vec<String>)
    ensures
        is_default_exts(r@),
{
    proof {
        reveal_strlit(".mp3");
        reveal_strlit(".m4a");
        reveal_strlit(".flac");
        assert(".mp3"@ =~= chars_mp3());
        assert(".m4a"@ =~= chars_m4a());
        assert(".flac"@ =~= chars_flac());
    }
    let mut r: Vec<String> = Vec::new();
    r.push(String::from_str(".mp3"));
    r.push(String::from_str(".m4a"));
    r.push(String::from_str(".flac"));
    r
}

/// The extension list a playlist scan works with: the caller's, unless the
/// caller named none or an empty list, in which case the common three.
pub fn effective_extensions(extensions: Option<Vec<String>>) -> (r: Vec<String>)
    ensures
        match extensions {
            Option::Some(v) => if v@.len() > 0 {
                r@ == v@
            } else {
                is_default_exts(r@)
            },
            Option::None => is_default_exts(r@),
        },
{
    match extensions {
        Option::Some(v) => {
            if v.len() > 0 {
                v
            } else {
                default_extensions()
            }
        },
        Option::None => default_extensions(),
    }
}

/// Decide whether one directory entry belongs in the playlist: its dotted
/// extension must be in the accepted list and its title must not name a
/// separated stem. An accepted entry carries the title and file name through
/// and leaves the artist unset.
pub fn playlist_entry(title: &str, file_name: &str, dot_ext: &str, exts: &Vec<String>) -> (r:
    Option<PlaylistItem>)
    ensures
        (r is Some) == (ext_listed(exts@, dot_ext@) && !unexpected_title(title@)),
        r matches Option::Some(item) ==> item.title@ == title@ && item.url@ == file_name@
            && item.artist is None,
{
    let mut found: bool = false;
    let mut i: usize = 0;
    while i < exts.len()
        invariant
            i <= exts@.len(),
            found == exists|l: int| 0 <= l < i && #[trigger] exts@[l]@ == dot_ext@,
        decreases exts@.len() - i,
    {
        if chars_eq(exts[i].as_str(), dot_ext) {
            found = true;
        }
        i += 1;
    }
    if !found {
        return Option::None;
    }
    proof {
        reveal_strlit("non_vocals");
        reveal_strlit("vocals");
        assert("non_vocals"@ =~= chars_non_vocals());
        assert("vocals"@ =~= chars_vocals());
    }
    if str_ends_with(title, "non_vocals") || str_ends_with(title, "vocals") {
        return Option::None;
    }
    Option::Some(
        PlaylistItem { title: title.to_owned(), url: file_name.to_owned(), artist: Option::None },
    )
}

} // verus!
