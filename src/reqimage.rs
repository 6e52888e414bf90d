//! The name arithmetic of a requested image: the source file a request
//! names, the file name of a resized copy, and the copy's width.

use std::path::Path;
use vstd::prelude::*;
use vstd::string::StringExecFns;

verus! {

/// Relies on `String::push`, which appends the character to the end of the string.
pub assume_specification[ String::push ](s: &mut String, ch: char)
    ensures
        final(s)@ == old(s)@.push(ch),
;

/// A character that stays in a requested name: ratio digits and their
/// underscore separators are stripped out.
pub open spec fn kept_in_name(c: char) -> bool {
    !('0' <= c && c <= '9') && c != '_'
}

/// Strips any included `_<ratio>` from a requested name, by dropping every
/// decimal digit and underscore.
pub fn strip_ratio(name: &str) -> (r: String)
    ensures
        r@ == name@.filter(|c: char| kept_in_name(c)),
{
    let mut out = String::new();
    for c in it: name.chars()
        invariant
            it.seq() == name@,
            out@ == name@.take(it.index() as int).filter(|c: char| kept_in_name(c)),
    {
        let ghost i = it.index() as int;
        proof {
            let t = name@.take(i + 1);
            assert(t.drop_last() =~= name@.take(i));
            assert(t.last() == c);
            reveal(Seq::filter);
        }
        if !('0' <= c && c <= '9') && c != '_' {
            out.push(c);
        }
    }
    proof {
        assert(name@.take(name@.len() as int) =~= name@);
    }
    out
}

/// The path `rel` joined onto `base`.
pub uninterp spec fn joined(base: Seq<char>, rel: Seq<char>) -> Seq<char>;

/// The stem of the last component of path `p`, if it has one.
pub uninterp spec fn file_stem_of(p: Seq<char>) -> Option<Seq<char>>;

/// The extension of the last component of path `p`, if it has one.
pub uninterp spec fn extension_of(p: Seq<char>) -> Option<Seq<char>>;

/// Relies on `Path::join`: the result depends on the two paths alone. Joining
/// two UTF-8 paths gives a UTF-8 path.
#[verifier::external_body]
fn join_path(base: &str, rel: &str) -> (r: String)
    ensures
        r@ == joined(base@, rel@),
{
    Path::new(base).join(rel).to_str().unwrap().to_string()
}

/// Relies on `Path::file_stem`: the result depends on the path alone, and a
/// part of a UTF-8 path is UTF-8.
#[verifier::external_body]
fn file_stem(p: &str) -> (r: Option<String>)
    ensures
        match r {
            Some(s) => file_stem_of(p@) == Some(s@),
            None => file_stem_of(p@) is None,
        },
{
    Path::new(p).file_stem().and_then(|s| s.to_str()).map(|s| s.to_string())
}

/// Relies on `Path::extension`: the result depends on the path alone, and a
/// part of a UTF-8 path is UTF-8.
#[verifier::external_body]
fn extension(p: &str) -> (r: Option<String>)
    ensures
        match r {
            Some(s) => extension_of(p@) == Some(s@),
            None => extension_of(p@) is None,
        },
{
    Path::new(p).extension().and_then(|s| s.to_str()).map(|s| s.to_string())
}

/// The decimal digit for `d < 10`.
pub open spec fn digit(d: nat) -> char {
    if d == 0 {
        '0'
    } else if d == 1 {
        '1'
    } else if d == 2 {
        '2'
    } else if d == 3 {
        '3'
    } else if d == 4 {
        '4'
    } else if d == 5 {
        '5'
    } else if d == 6 {
        '6'
    } else if d == 7 {
        '7'
    } else if d == 8 {
        '8'
    } else {
        '9'
    }
}

/// `n` written in decimal, without leading zeros.
pub open spec fn decimal(n: nat) -> Seq<char>
    decreases n,
{
    if n < 10 {
        seq![digit(n)]
    } else {
        decimal(n / 10).push(digit(n % 10))
    }
}

fn push_digit(s: &mut String, d: u8)
    requires
        d < 10,
    ensures
        final(s)@ == old(s)@.push(digit(d as nat)),
{
    let c = match d {
        0 => '0',
        1 => '1',
        2 => '2',
        3 => '3',
        4 => '4',
        5 => '5',
        6 => '6',
        7 => '7',
        8 => '8',
        _ => '9',
    };
    s.push(c);
}

/// The file name of the copy of `<root>/<stem>.<ext>` resized to `ratio`
/// percent: `<root>/<stem>_<ratio>.<ext>`.
pub fn ratio_pathname(root: &str, stem: &str, ratio: u8, ext: &str) -> (r: String)
    ensures
        r@ == root@ + seq!['/'] + stem@ + seq!['_'] + decimal(ratio as nat) + seq!['.'] + ext@,
{
    let mut out = String::from_str(root);
    out.push('/');
    out.append(stem);
    out.push('_');
    let ghost before = out@;
    if ratio >= 100 {
        push_digit(&mut out, ratio / 100);
    }
    if ratio >= 10 {
        push_digit(&mut out, ratio / 10 % 10);
    }
    push_digit(&mut out, ratio % 10);
    proof {
        reveal_with_fuel(decimal, 3);
        let n = ratio as nat;
        if n >= 100 {
            assert(n / 10 >= 10);
            assert(n / 10 / 10 < 10);
            assert(n / 10 / 10 == n / 100);
        }
        assert(out@ =~= before + decimal(n));
    }
    out.push('.');
    out.append(ext);
    proof {
        assert(out@ =~= root@ + seq!['/'] + stem@ + seq!['_'] + decimal(ratio as nat) + seq!['.']
            + ext@);
    }
    out
}

/// The width of a copy resized to `ratio` percent of `width` pixels,
/// rounded down.
pub fn scaled_width(width: u32, ratio: u8) -> (r: u32)
    requires
        width * ratio <= u32::MAX,
    ensures
        r == width * ratio / 100,
{
    width * ratio as u32 / 100
}

/// A requested image: where its source image lives under the `static` folder,
/// where the copy resized to `ratio` percent lives, and the extension the
/// request names (which decides the content type).
pub struct RequestedImage {
    pub path: String,
    pub new_pathname: String,
    pub extension: Option<String>,
    pub ratio: u8,
}

impl RequestedImage {
    /// The image that `path` names under the `static` folder `root`, resized
    /// to `ratio` percent (0: as is). Any `_<ratio>` in the name is stripped
    /// to find the source image; the copy is named `<root>/<stem>_<ratio>.<ext>`.
    /// `None` when a ratio is asked for and the source image has no stem or no
    /// extension to build that name from.
    pub fn new(path: &str, root: &str, ratio: u8) -> (r: Option<RequestedImage>)
        ensures
            ({
                let filepath = joined(root@, path@.filter(|c: char| kept_in_name(c)));
                match r {
                    None => ratio != 0 && (file_stem_of(filepath) is None || extension_of(
                        filepath,
                    ) is None),
                    Some(img) => {
                        &&& img.path@ == joined(root@, filepath)
                        &&& img.ratio == ratio
                        &&& match img.extension {
                            Some(e) => extension_of(path@) == Some(e@),
                            None => extension_of(path@) is None,
                        }
                        &&& if ratio == 0 {
                            img.new_pathname@ == filepath
                        } else {
                            &&& file_stem_of(filepath) matches Some(stem)
                            &&& extension_of(filepath) matches Some(ext)
                            &&& img.new_pathname@ == root@ + seq!['/'] + stem + seq!['_']
                                + decimal(ratio as nat) + seq!['.'] + ext
                        }
                    },
                }
            }),
    {
        let filename = strip_ratio(path);
        let filepath = join_path(root, filename.as_str());
        let new_pathname = if ratio == 0 {
            filepath.clone()
        } else {
            let stem = match file_stem(filepath.as_str()) {
                Some(s) => s,
                None => {
                    return None;
                },
            };
            let ext = match extension(filepath.as_str()) {
                Some(e) => e,
                None => {
                    return None;
                },
            };
            ratio_pathname(root, stem.as_str(), ratio, ext.as_str())
        };
        Some(
            RequestedImage {
                path: join_path(root, filepath.as_str()),
                new_pathname,
                extension: extension(path),
                ratio,
            },
        )
    }
}

} // verus!
