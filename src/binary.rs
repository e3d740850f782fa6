use vstd::prelude::*;

use crate::paths::segments;
use crate::text::{char_vec, chars_equal, split_chars, string_of};

verus! {

/// What `str::to_lowercase` returns for a string.
pub uninterp spec fn lower_of(s: Seq<char>) -> Seq<char>;

/// Relies on `str::to_lowercase`: the result depends on the characters alone.
#[verifier::external_body]
fn lowercase(s: &str) -> (r: String)
    ensures
        r@ == lower_of(s@),
{
    s.to_lowercase()
}

/// Extensions of files that are binary whatever their content.
pub open spec fn builtin_binary_extensions() -> Seq<Seq<char>> {
    seq![
        "7z"@, "a"@, "avi"@, "bin"@, "bmp"@, "bz2"@, "class"@, "dat"@, "db"@, "dll"@, "dylib"@,
        "eot"@, "exe"@, "flac"@, "gif"@, "gz"@, "ico"@, "jar"@, "jpeg"@, "jpg"@, "mkv"@, "mov"@,
        "mp3"@, "mp4"@, "o"@, "obj"@, "ogg"@, "otf"@, "pdf"@, "png"@, "pyc"@, "rar"@, "so"@,
        "sqlite"@, "tar"@, "tgz"@, "tif"@, "tiff"@, "ttf"@, "wasm"@, "wav"@, "webp"@, "woff"@,
        "woff2"@, "xz"@, "zip"@,
    ]
}

fn builtin_list() -> (r: Vec<&'static str>)
    ensures
        r@.map_values(|s: &str| s@) == builtin_binary_extensions(),
{
    let r = vec![
        "7z", "a", "avi", "bin", "bmp", "bz2", "class", "dat", "db", "dll", "dylib", "eot", "exe",
        "flac", "gif", "gz", "ico", "jar", "jpeg", "jpg", "mkv", "mov", "mp3", "mp4", "o", "obj",
        "ogg", "otf", "pdf", "png", "pyc", "rar", "so", "sqlite", "tar", "tgz", "tif", "tiff", "ttf",
        "wasm", "wav", "webp", "woff", "woff2", "xz", "zip",
    ];
    assert(r@.map_values(|s: &str| s@) =~= builtin_binary_extensions());
    r
}

/// The last non-empty piece of a `/`-separated path.
pub open spec fn last_name(segs: Seq<Seq<char>>, n: int) -> Option<Seq<char>>
    decreases n,
{
    if n <= 0 || n > segs.len() {
        None
    } else if segs[n - 1].len() > 0 {
        Some(segs[n - 1])
    } else {
        last_name(segs, n - 1)
    }
}

/// Index of the last `.` in `name`, if any.
pub open spec fn last_dot(name: Seq<char>, n: int) -> Option<int>
    decreases n,
{
    if n <= 0 || n > name.len() {
        None
    } else if name[n - 1] == '.' {
        Some(n - 1)
    } else {
        last_dot(name, n - 1)
    }
}

/// The extension of a path: what follows the last `.` of its file name,
/// unless that `.` starts the name; none for `.` and `..`.
pub open spec fn extension(path: Seq<char>) -> Option<Seq<char>> {
    let segs = segments(path);
    match last_name(segs, segs.len() as int) {
        None => None,
        Some(name) => if name == seq!['.', '.'] || name == seq!['.'] {
            None
        } else {
            match last_dot(name, name.len() as int) {
                Some(d) => if d > 0 {
                    Some(name.skip(d + 1))
                } else {
                    None
                },
                None => None,
            }
        },
    }
}

/// `s` without its leading dots.
pub open spec fn strip_dots(s: Seq<char>) -> Seq<char>
    decreases s.len(),
{
    if s.len() > 0 && s[0] == '.' {
        strip_dots(s.skip(1))
    } else {
        s
    }
}

/// Whether a path's extension, lowercased, is a built-in binary extension
/// or one of the user's (given with or without leading dots).
pub open spec fn binary_by_extension(path: Seq<char>, user: Seq<String>) -> bool {
    match extension(path) {
        None => false,
        Some(e) => builtin_binary_extensions().contains(lower_of(e)) || exists|k: int|
            0 <= k < user.len() && strip_dots(#[trigger] user[k]@) == lower_of(e),
    }
}

/// Whether the bytes hold a zero byte.
pub open spec fn has_nul(bytes: Seq<u8>) -> bool {
    exists|i: int| 0 <= i < bytes.len() && bytes[i] == 0
}

/// The extension of `path`, if it has one.
pub fn file_extension(path: &str) -> (r: Option<String>)
    ensures
        r.is_some() == extension(path@).is_some(),
        r.is_some() ==> r.unwrap()@ == extension(path@).unwrap(),
{
    let cs = char_vec(path);
    let segs = split_chars(&cs, '/');
    let ghost sv = segs@.map_values(|s: Vec<char>| s@);
    let mut n = segs.len();
    while n > 0 && segs[n - 1].len() == 0
        invariant
            n <= segs@.len(),
            sv == segs@.map_values(|s: Vec<char>| s@),
            last_name(sv, segs@.len() as int) == last_name(sv, n as int),
        decreases n,
    {
        n = n - 1;
    }
    if n == 0 {
        return None;
    }
    let name = &segs[n - 1];
    let len = name.len();
    if (len == 1 && name[0] == '.') || (len == 2 && name[0] == '.' && name[1] == '.') {
        proof {
            if len == 1 {
                assert(name@ =~= seq!['.']);
            } else {
                assert(name@ =~= seq!['.', '.']);
            }
        }
        return None;
    }
    proof {
        if name@ == seq!['.'] {
            assert(len == 1 && name@[0] == '.');
        }
        if name@ == seq!['.', '.'] {
            assert(len == 2 && name@[0] == '.' && name@[1] == '.');
        }
    }
    let mut d = len;
    while d > 0 && name[d - 1] != '.'
        invariant
            d <= name@.len(),
            last_dot(name@, name@.len() as int) == last_dot(name@, d as int),
        decreases d,
    {
        d = d - 1;
    }
    if d <= 1 {
        return None;
    }
    let mut ext: Vec<char> = Vec::new();
    let mut k = d;
    while k < len
        invariant
            d <= k <= len == name@.len(),
            ext@ == name@.subrange(d as int, k as int),
        decreases len - k,
    {
        ext.push(name[k]);
        k = k + 1;
        assert(ext@ =~= name@.subrange(d as int, k as int));
    }
    assert(ext@ =~= name@.skip(d as int));
    Some(string_of(&ext))
}

fn strip_leading_dots(s: &str) -> (r: Vec<char>)
    ensures
        r@ == strip_dots(s@),
{
    let cs = char_vec(s);
    let mut i: usize = 0;
    assert(cs@.skip(0) =~= cs@);
    while i < cs.len() && cs[i] == '.'
        invariant
            i <= cs@.len(),
            strip_dots(cs@) == strip_dots(cs@.skip(i as int)),
        decreases cs@.len() - i,
    {
        assert(cs@.skip(i as int).skip(1) =~= cs@.skip(i + 1));
        i = i + 1;
    }
    let mut r: Vec<char> = Vec::new();
    let mut k = i;
    while k < cs.len()
        invariant
            i <= k <= cs@.len(),
            r@ == cs@.subrange(i as int, k as int),
        decreases cs@.len() - k,
    {
        r.push(cs[k]);
        k = k + 1;
        assert(r@ =~= cs@.subrange(i as int, k as int));
    }
    assert(r@ =~= cs@.skip(i as int));
    r
}

/// Whether `path` is binary by its extension alone: the lowercased
/// extension is a built-in binary one or one that the user lists.
pub fn is_binary_extension(path: &str, user_binary_extensions: &[String]) -> (r: bool)
    ensures
        r == binary_by_extension(path@, user_binary_extensions@),
{
    let ext = match file_extension(path) {
        Some(e) => e,
        None => return false,
    };
    let lower = lowercase(ext.as_str());
    let lc = char_vec(lower.as_str());
    let builtin = builtin_list();
    let ghost bv = builtin@.map_values(|s: &str| s@);
    let mut i: usize = 0;
    while i < builtin.len()
        invariant
            i <= builtin@.len(),
            bv == builtin@.map_values(|s: &str| s@),
            bv == builtin_binary_extensions(),
            extension(path@).is_some(),
            lc@ == lower_of(extension(path@).unwrap()),
            forall|q: int| 0 <= q < i ==> bv[q] != lc@,
        decreases builtin@.len() - i,
    {
        let b = char_vec(builtin[i]);
        if chars_equal(&b, &lc) {
            assert(bv[i as int] == lc@);
            assert(builtin_binary_extensions().contains(lc@));
            return true;
        }
        i = i + 1;
    }
    assert(!builtin_binary_extensions().contains(lc@));
    let mut k: usize = 0;
    while k < user_binary_extensions.len()
        invariant
            k <= user_binary_extensions@.len(),
            extension(path@).is_some(),
            lc@ == lower_of(extension(path@).unwrap()),
            forall|q: int| 0 <= q < k ==> strip_dots(#[trigger] user_binary_extensions@[q]@) != lc@,
        decreases user_binary_extensions@.len() - k,
    {
        let u = strip_leading_dots(user_binary_extensions[k].as_str());
        if chars_equal(&u, &lc) {
            assert(strip_dots(user_binary_extensions@[k as int]@) == lc@);
            return true;
        }
        k = k + 1;
    }
    false
}

/// Whether a file's first bytes mark it as binary: they hold a zero byte.
pub fn looks_binary(prefix: &[u8]) -> (r: bool)
    ensures
        r == has_nul(prefix@),
{
    let mut i: usize = 0;
    while i < prefix.len()
        invariant
            i <= prefix@.len(),
            forall|q: int| 0 <= q < i ==> prefix@[q] != 0,
        decreases prefix@.len() - i,
    {
        if prefix[i] == 0 {
            return true;
        }
        i = i + 1;
    }
    false
}

} // verus!
