use crate::tokenizer::push_char;
use crate::tokenizer::parse_tags;
use crate::tokenizer::spec_parse_tags;
use vstd::hash_set::StringHashSet;
use vstd::prelude::*;
use vstd::string::StrSliceExecFns;
use vstd::string::StringExecFns;

verus! {

/// A file's tag record: the path it was named by and the tags read from its
/// sidecar text.
pub struct TagData {
    pub name: String,
    pub tags: Vec<String>,
}

/// The file name of a path: the part after its last slash (the whole path
/// when it has none).
pub open spec fn spec_file_name(p: Seq<char>) -> Seq<char>
    decreases p.len(),
{
    if p.len() == 0 {
        Seq::empty()
    } else if p.last() == '/' {
        Seq::empty()
    } else {
        spec_file_name(p.drop_last()).push(p.last())
    }
}

/// The extension of a file name: the part after its last dot, provided that
/// dot is not the name's first character.
pub open spec fn spec_ext_of_name(f: Seq<char>) -> Option<Seq<char>>
    decreases f.len(),
{
    if f.len() <= 1 {
        None
    } else if f.last() == '.' {
        Some(Seq::empty())
    } else {
        match spec_ext_of_name(f.drop_last()) {
            Some(e) => Some(e.push(f.last())),
            None => None,
        }
    }
}

/// The stem of a file name: the name without its extension and the dot.
pub open spec fn spec_stem_of_name(f: Seq<char>) -> Seq<char> {
    match spec_ext_of_name(f) {
        Some(e) => f.take(f.len() - e.len() - 1),
        None => f,
    }
}

/// The extension of a path's file name.
pub open spec fn spec_extension(p: Seq<char>) -> Option<Seq<char>> {
    spec_ext_of_name(spec_file_name(p))
}

/// The stem of a path's file name.
pub open spec fn spec_stem(p: Seq<char>) -> Seq<char> {
    spec_stem_of_name(spec_file_name(p))
}

/// Scans a path once: where its file name starts, and the position of the dot
/// that starts its extension, when it has one.
fn scan_path(path: &str) -> (r: (usize, Option<usize>))
    ensures
        r.0 <= path@.len(),
        spec_file_name(path@) == path@.skip(r.0 as int),
        match r.1 {
            Some(dp) => {
                &&& r.0 <= dp < path@.len()
                &&& spec_extension(path@) == Some(path@.skip(dp + 1))
                &&& spec_stem(path@) == path@.subrange(r.0 as int, dp as int)
            },
            None => {
                &&& spec_extension(path@) is None
                &&& spec_stem(path@) == path@.skip(r.0 as int)
            },
        },
{
    let n = path.unicode_len();
    let mut ns: usize = 0;
    let mut dot: Option<usize> = None;
    let mut i: usize = 0;
    proof {
        assert(path@.take(0) =~= Seq::<char>::empty());
    }
    while i < n
        invariant
            n == path@.len(),
            ns <= i <= n,
            spec_file_name(path@.take(i as int)) == path@.subrange(ns as int, i as int),
            match dot {
                Some(dp) => {
                    &&& ns < dp < i
                    &&& spec_ext_of_name(spec_file_name(path@.take(i as int))) == Some(
                        path@.subrange(dp + 1, i as int),
                    )
                },
                None => spec_ext_of_name(spec_file_name(path@.take(i as int))) is None,
            },
        decreases n - i,
    {
        let c = path.get_char(i);
        proof {
            assert(path@.take(i + 1).drop_last() =~= path@.take(i as int));
            assert(path@.take(i + 1).last() == path@[i as int]);
        }
        if c == '/' {
            ns = i + 1;
            dot = None;
            proof {
                assert(path@.subrange(ns as int, i + 1) =~= Seq::<char>::empty());
            }
        } else {
            proof {
                assert(path@.subrange(ns as int, i as int).push(path@[i as int]) =~= path@.subrange(
                    ns as int,
                    i + 1,
                ));
                assert(path@.subrange(ns as int, i + 1).drop_last() =~= path@.subrange(
                    ns as int,
                    i as int,
                ));
                assert(path@.subrange(ns as int, i + 1).last() == path@[i as int]);
            }
            if c == '.' && i > ns {
                dot = Some(i);
                proof {
                    assert(path@.subrange(i + 1, i + 1) =~= Seq::<char>::empty());
                }
            } else {
                proof {
                    if let Some(dp) = dot {
                        assert(path@.subrange(dp + 1, i as int).push(path@[i as int])
                            =~= path@.subrange(dp + 1, i + 1));
                    }
                }
            }
        }
        i += 1;
    }
    proof {
        assert(path@.take(n as int) =~= path@);
        assert(path@.subrange(ns as int, n as int) =~= path@.skip(ns as int));
        if let Some(dp) = dot {
            assert(path@.subrange(dp + 1, n as int) =~= path@.skip(dp + 1));
            let f = spec_file_name(path@);
            let e = path@.skip(dp + 1);
            assert(f.take(f.len() - e.len() - 1) =~= path@.subrange(ns as int, dp as int));
        }
    }
    (ns, dot)
}

/// The extension of a path: the part of its file name after the last dot,
/// when that dot is not the name's first character.
pub fn extension_of(path: &str) -> (r: Option<String>)
    ensures
        r.deep_view() == spec_extension(path@),
{
    let n = path.unicode_len();
    let (_ns, dot) = scan_path(path);
    match dot {
        Some(dp) => Some(path.substring_char(dp + 1, n).to_owned()),
        None => None,
    }
}

/// The file stem of a path: its file name without the extension.
pub fn file_stem_of(path: &str) -> (r: String)
    ensures
        r@ == spec_stem(path@),
{
    let n = path.unicode_len();
    let (ns, dot) = scan_path(path);
    match dot {
        Some(dp) => path.substring_char(ns, dp).to_owned(),
        None => path.substring_char(ns, n).to_owned(),
    }
}

/// ASCII lowercase of one character.
pub open spec fn spec_lower_char(c: char) -> char {
    if 'A' <= c && c <= 'Z' {
        ((c as u8) + 32) as char
    } else {
        c
    }
}

/// ASCII lowercase of a character sequence.
pub open spec fn spec_lower(s: Seq<char>) -> Seq<char> {
    s.map_values(|c: char| spec_lower_char(c))
}

fn to_ascii_lower(s: &str) -> (r: String)
    ensures
        r@ == spec_lower(s@),
{
    let n = s.unicode_len();
    let mut out = String::new();
    let mut i: usize = 0;
    proof {
        assert(out@ =~= spec_lower(s@.take(0)));
    }
    while i < n
        invariant
            i <= n,
            n == s@.len(),
            out@ == spec_lower(s@.take(i as int)),
        decreases n - i,
    {
        let c = s.get_char(i);
        let lc = if c >= 'A' && c <= 'Z' {
            ((c as u8) + 32) as char
        } else {
            c
        };
        push_char(&mut out, lc);
        proof {
            assert(spec_lower(s@.take(i + 1)) =~= spec_lower(s@.take(i as int)).push(
                spec_lower_char(s@[i as int]),
            ));
        }
        i += 1;
    }
    proof {
        assert(s@.take(n as int) =~= s@);
    }
    out
}

/// An image extension: png, jpg, jpeg or webp, letters of any case.
pub open spec fn spec_is_image_ext(e: Seq<char>) -> bool {
    ||| spec_lower(e) == "png"@
    ||| spec_lower(e) == "jpg"@
    ||| spec_lower(e) == "jpeg"@
    ||| spec_lower(e) == "webp"@
}

/// Whether an extension names an image format, letters of any case.
pub fn is_image_file(ext: &str) -> (r: bool)
    ensures
        r == spec_is_image_ext(ext@),
{
    let lowered = to_ascii_lower(ext);
    let r = lowered == String::from_str("png") || lowered == String::from_str("jpg") || lowered
        == String::from_str("jpeg") || lowered == String::from_str("webp");
    r
}

/// A path whose file name carries an image extension.
pub open spec fn spec_is_image_path(p: Seq<char>) -> bool {
    match spec_extension(p) {
        Some(e) => spec_is_image_ext(e),
        None => false,
    }
}

/// The tag record of a path: a path with an image extension yields its own
/// text as the name and the tokens of its sidecar text (no tokens when no
/// sidecar text could be read); any other path yields nothing. The caller
/// reads the sidecar file and passes its text.
pub fn read_tags(path: &str, sidecar: Option<&str>) -> (r: Option<TagData>)
    ensures
        match r {
            Some(td) => {
                &&& spec_is_image_path(path@)
                &&& td.name@ == path@
                &&& td.tags.deep_view() == (match sidecar {
                    Some(t) => spec_parse_tags(t@),
                    None => Seq::<Seq<char>>::empty(),
                })
            },
            None => !spec_is_image_path(path@),
        },
{
    match extension_of(path) {
        Some(e) => {
            if is_image_file(e.as_str()) {
                let tags = match sidecar {
                    Some(t) => parse_tags(t),
                    None => Vec::new(),
                };
                proof {
                    if sidecar is None {
                        assert(tags.deep_view() =~= Seq::<Seq<char>>::empty());
                    }
                }
                Some(TagData { name: path.to_owned(), tags })
            } else {
                None
            }
        },
        None => None,
    }
}

/// The set of known image file stems, compared by content.
pub struct ImageSet {
    pub names: StringHashSet,
}

impl View for ImageSet {
    type V = Set<Seq<char>>;

    open spec fn view(&self) -> Set<Seq<char>> {
        self.names@
    }
}

impl ImageSet {
    /// Creates an empty set.
    pub fn new() -> (s: Self)
        ensures
            s@ == Set::<Seq<char>>::empty(),
    {
        ImageSet { names: StringHashSet::new() }
    }

    /// Adds a stem to the set.
    pub fn add(&mut self, name: String)
        ensures
            final(self)@ == old(self)@.insert(name@),
    {
        self.names.insert(name);
    }

    /// Whether a stem is in the set.
    pub fn contains(&self, name: &str) -> (r: bool)
        ensures
            r == self@.contains(name@),
    {
        self.names.contains(name)
    }
}

/// Whether an image whose stem equals the path's stem is known.
pub fn is_image_exist(images: &ImageSet, path: &str) -> (r: bool)
    ensures
        r == images@.contains(spec_stem(path@)),
{
    let stem = file_stem_of(path);
    images.contains(stem.as_str())
}

/// A sidecar text file with no image of the same stem: the path has the
/// extension txt (exactly) and no known image shares its stem.
pub fn is_isolated_txt(images: &ImageSet, path: &str) -> (r: bool)
    ensures
        r == (spec_extension(path@) == Some("txt"@) && !images@.contains(spec_stem(path@))),
{
    match extension_of(path) {
        Some(e) => {
            if e == String::from_str("txt") {
                !is_image_exist(images, path)
            } else {
                false
            }
        },
        None => false,
    }
}

/// A path stripped of a base directory prefix: the part after the base (and
/// one separating slash, when present), or nothing when the path does not
/// start with the base.
pub open spec fn spec_strip_base(base: Seq<char>, p: Seq<char>) -> Option<Seq<char>> {
    if p.len() >= base.len() && p.take(base.len() as int) == base {
        let rest = p.skip(base.len() as int);
        if rest.len() > 0 && rest[0] == '/' {
            Some(rest.drop_first())
        } else {
            Some(rest)
        }
    } else {
        None
    }
}

/// The image files of a listing, in order, each stripped of the base
/// directory prefix; files not under the base are left out.
pub open spec fn spec_listdir_images(base: Seq<char>, files: Seq<Seq<char>>) -> Seq<Seq<char>>
    decreases files.len(),
{
    if files.len() == 0 {
        Seq::empty()
    } else {
        let rest = spec_listdir_images(base, files.drop_first());
        if spec_is_image_path(files[0]) {
            match spec_strip_base(base, files[0]) {
                Some(s) => seq![s] + rest,
                None => rest,
            }
        } else {
            rest
        }
    }
}

/// Filters a file listing down to the image files under the base directory,
/// each path stripped of the base prefix, in listing order. The caller lists
/// the directory and passes the paths.
pub fn listdir_images(path: &str, files: &Vec<String>) -> (r: Vec<String>)
    ensures
        r.deep_view() == spec_listdir_images(path@, files.deep_view()),
{
    let ghost fsv = files.deep_view();
    let blen = path.unicode_len();
    let mut out: Vec<String> = Vec::new();
    let mut i: usize = 0;
    proof {
        assert(fsv.skip(0) =~= fsv);
        assert(out.deep_view() =~= Seq::<Seq<char>>::empty());
    }
    while i < files.len()
        invariant
            i <= files.len(),
            fsv == files.deep_view(),
            blen == path@.len(),
            out.deep_view() + spec_listdir_images(path@, fsv.skip(i as int))
                == spec_listdir_images(path@, fsv),
        decreases files.len() - i,
    {
        let ghost out0 = out.deep_view();
        let f = &files[i];
        proof {
            assert(fsv[i as int] == f@);
            assert(fsv.skip(i as int)[0] == fsv[i as int]);
            assert(fsv.skip(i as int).drop_first() =~= fsv.skip(i as int + 1));
        }
        let flen = f.as_str().unicode_len();
        let is_image = match extension_of(f.as_str()) {
            Some(e) => is_image_file(e.as_str()),
            None => false,
        };
        if is_image && flen >= blen {
            let pre = f.as_str().substring_char(0, blen);
            if str_eq(pre, path) {
                proof {
                    assert(f@.take(blen as int) == path@);
                }
                let start = if flen > blen && f.as_str().get_char(blen) == '/' {
                    blen + 1
                } else {
                    blen
                };
                let stripped = f.as_str().substring_char(start, flen).to_owned();
                proof {
                    let rest = f@.skip(blen as int);
                    if flen > blen {
                        assert(f@.subrange(blen as int, f@.len() as int)[0] == f@[blen as int]);
                        assert(rest[0] == f@[blen as int]);
                    }
                    if start == blen + 1 {
                        assert(stripped@ =~= rest.drop_first());
                    } else {
                        assert(stripped@ =~= rest);
                    }
                    assert(spec_strip_base(path@, f@) == Some(stripped@));
                }
                out.push(stripped);
                proof {
                    assert(out.deep_view() =~= out0 + seq![spec_strip_base(path@, f@).unwrap()]);
                    assert(out0 + (seq![spec_strip_base(path@, f@).unwrap()]
                        + spec_listdir_images(path@, fsv.skip(i as int + 1))) =~= out.deep_view()
                        + spec_listdir_images(path@, fsv.skip(i as int + 1)));
                }
            } else {
                proof {
                    assert(f@.take(blen as int) != path@);
                }
            }
        }
        i += 1;
    }
    proof {
        assert(fsv.skip(files@.len() as int) =~= Seq::<Seq<char>>::empty());
        assert(out.deep_view() + Seq::<Seq<char>>::empty() =~= out.deep_view());
    }
    out
}

/// Compares two string slices by content.
fn str_eq(a: &str, b: &str) -> (r: bool)
    ensures
        r == (a@ == b@),
{
    let x = a.to_owned();
    let y = b.to_owned();
    x == y
}

} // verus!
