//! The decisions of the folder tools: which keys are images, where a key is
//! stored locally, how the folder and the knobs are read from the command line
//! and the environment.
use vstd::prelude::*;

use crate::text::{
    ascii_lower_code, chars_of, decimal, digit_char, ends_with, ends_with_char, lowercase_eq, lowercase_equals, starts_with,
    starts_with_str, string_from_chars, strip_prefix_or_self, trim_start_char,
};
use std::path::{Path, PathBuf};

verus! {

#[verifier::external_type_specification]
#[verifier::external_body]
pub struct ExPathBuf(PathBuf);

/// The extension that `std::path::Path::extension` finds in `path`, as std
/// parses a path on the platform the library is built for.
pub uninterp spec fn path_extension(path: Seq<char>) -> Option<Seq<char>>;

/// `Path::new(path).extension()`, as text. The argument is valid UTF-8, so
/// the extension is too.
#[verifier::external_body]
fn extension_of(path: &str) -> (res: Option<String>)
    ensures
        match res {
            Some(e) => path_extension(path@) == Some(e@),
            None => path_extension(path@) is None,
        },
{
    match Path::new(path).extension() {
        Some(e) => e.to_str().map(String::from),
        None => None,
    }
}

/// The path that `std::path::Path::join` makes of `base` and `rel`, as std
/// joins paths on the platform the library is built for.
pub uninterp spec fn path_join(base: Seq<char>, rel: Seq<char>) -> PathBuf;

/// `Path::new(base).join(rel)`.
#[verifier::external_body]
fn join_path(base: &str, rel: &str) -> (res: PathBuf)
    ensures
        res == path_join(base@, rel@),
{
    Path::new(base).join(rel)
}

/// The extensions that mark a key as an image, in lower case.
pub open spec fn image_extensions() -> Seq<Seq<char>> {
    seq!["jpg"@, "jpeg"@, "png"@, "gif"@, "bmp"@, "webp"@, "tif"@, "tiff"@]
}

/// An extension names an image when, lower-cased, it is one of the image
/// extensions.
pub open spec fn is_image_extension_spec(ext: Option<Seq<char>>) -> bool {
    match ext {
        Some(e) => exists|i: int|
            0 <= i < image_extensions().len() && lowercase_equals(e, #[trigger] image_extensions()[i]),
        None => false,
    }
}

/// A key names an image when the extension of its path does.
pub open spec fn is_image_spec(key: Seq<char>) -> bool {
    is_image_extension_spec(path_extension(key))
}

/// The view of an optional string slice.
pub open spec fn opt_str_view(o: Option<&str>) -> Option<Seq<char>> {
    match o {
        Some(s) => Some(s@),
        None => None,
    }
}

/// Whether an extension names an image, in any letter case.
pub fn is_image_extension(ext: Option<&str>) -> (res: bool)
    ensures
        res == is_image_extension_spec(opt_str_view(ext)),
{
    match ext {
        None => false,
        Some(e) => {
            assert(opt_str_view(ext) == Some(e@));
            let cs = chars_of(e);
            let names: [&str; 8] = ["jpg", "jpeg", "png", "gif", "bmp", "webp", "tif", "tiff"];
            assert(names@.map_values(|s: &str| s@) =~= image_extensions());
            let mut i: usize = 0;
            while i < 8
                invariant
                    i <= 8,
                    cs@ == e@,
                    names@.map_values(|s: &str| s@) == image_extensions(),
                    image_extensions().len() == 8,
                    opt_str_view(ext) == Some(e@),
                    forall|j: int| 0 <= j < i ==> !lowercase_equals(e@, #[trigger] image_extensions()[j]),
                decreases 8 - i,
            {
                assert(names@[i as int]@ == image_extensions()[i as int]);
                if lowercase_eq(&cs, names[i]) {
                    assert(lowercase_equals(e@, image_extensions()[i as int]));
                    assert(is_image_extension_spec(Some(e@)));
                    return true;
                }
                i = i + 1;
            }
            assert(image_extensions().len() == 8);
            false
        },
    }
}

/// Whether a key names an image, judged by its extension in any letter case.
pub fn is_image(key: &str) -> (res: bool)
    ensures
        res == is_image_spec(key@),
{
    match extension_of(key) {
        Some(e) => is_image_extension(Some(e.as_str())),
        None => is_image_extension(None),
    }
}

/// The `..` path segment, which names the parent folder.
pub open spec fn parent_segment() -> Seq<char> {
    seq!['.', '.']
}

/// The `/`-separated segments of `s`, in order; `s` without a `/` is one
/// segment, and the empty text is one empty segment.
pub open spec fn split_segments(s: Seq<char>) -> Seq<Seq<char>>
    decreases s.len(),
{
    if s.len() == 0 {
        seq![Seq::empty()]
    } else {
        let sp = split_segments(s.drop_last());
        if s.last() == '/' {
            sp.push(Seq::empty())
        } else {
            sp.update(sp.len() - 1, sp.last().push(s.last()))
        }
    }
}

/// A segment that stays in a local path: any but `..`.
pub open spec fn kept_segment(g: Seq<char>) -> bool {
    g != parent_segment()
}

/// The segments that stay in a local path, in order.
pub open spec fn keep_segments(segs: Seq<Seq<char>>) -> Seq<Seq<char>>
    decreases segs.len(),
{
    if segs.len() == 0 {
        Seq::empty()
    } else if kept_segment(segs.last()) {
        keep_segments(segs.drop_last()).push(segs.last())
    } else {
        keep_segments(segs.drop_last())
    }
}

/// The segments joined by `/`.
pub open spec fn join_segments(segs: Seq<Seq<char>>) -> Seq<char>
    decreases segs.len(),
{
    if segs.len() == 0 {
        Seq::empty()
    } else if segs.len() == 1 {
        segs[0]
    } else {
        join_segments(segs.drop_last()) + seq!['/'] + segs.last()
    }
}

/// The part of `key` that is kept under the download folder: everything
/// after the prefix (the whole key if it does not start with it), with its
/// `..` segments dropped and without leading slashes, so that it neither
/// starts at the root nor climbs out of the folder.
pub open spec fn relative_key_spec(prefix: Seq<char>, key: Seq<char>) -> Seq<char> {
    trim_start_char(
        join_segments(keep_segments(split_segments(strip_prefix_or_self(key, prefix)))),
        '/',
    )
}

proof fn lemma_split_nonempty(s: Seq<char>)
    ensures
        split_segments(s).len() >= 1,
    decreases s.len(),
{
    if s.len() > 0 {
        lemma_split_nonempty(s.drop_last());
    }
}

proof fn lemma_keep_kept(segs: Seq<Seq<char>>)
    ensures
        forall|i: int|
            0 <= i < keep_segments(segs).len() ==> kept_segment(#[trigger] keep_segments(segs)[i])
                && segs.contains(keep_segments(segs)[i]),
    decreases segs.len(),
{
    if segs.len() > 0 {
        let d = segs.drop_last();
        lemma_keep_kept(d);
        assert forall|i: int| 0 <= i < keep_segments(segs).len() implies kept_segment(
            #[trigger] keep_segments(segs)[i],
        ) && segs.contains(keep_segments(segs)[i]) by {
            if i < keep_segments(d).len() {
                assert(keep_segments(segs)[i] == keep_segments(d)[i]);
                let j = choose|j: int| 0 <= j < d.len() && d[j] == keep_segments(d)[i];
                assert(segs[j] == d[j]);
            } else {
                assert(segs[segs.len() - 1] == segs.last());
            }
        }
    }
}

proof fn lemma_split_no_slash(s: Seq<char>)
    ensures
        forall|i: int|
            0 <= i < split_segments(s).len() ==> !(#[trigger] split_segments(s)[i]).contains('/'),
    decreases s.len(),
{
    if s.len() > 0 {
        let d = s.drop_last();
        lemma_split_no_slash(d);
        lemma_split_nonempty(d);
        let sp = split_segments(d);
        assert forall|i: int| 0 <= i < split_segments(s).len() implies !(
        #[trigger] split_segments(s)[i]).contains('/') by {
            if s.last() != '/' && i == sp.len() - 1 {
                let g = sp.last().push(s.last());
                assert(split_segments(s)[i] == g);
                if g.contains('/') {
                    let k = choose|k: int| 0 <= k < g.len() && g[k] == '/';
                    assert(sp.last()[k] == '/');
                }
            } else if i < sp.len() {
                assert(split_segments(s)[i] == sp[i]);
            } else {
                assert(split_segments(s)[i] =~= Seq::<char>::empty());
            }
        }
    }
}

proof fn lemma_split_append(b: Seq<char>, x: Seq<char>)
    requires
        !x.contains('/'),
    ensures
        split_segments(b + x) == split_segments(b).update(
            split_segments(b).len() - 1,
            split_segments(b).last() + x,
        ),
    decreases x.len(),
{
    lemma_split_nonempty(b);
    if x.len() == 0 {
        assert(b + x =~= b);
        assert(split_segments(b).last() + x =~= split_segments(b).last());
        assert(split_segments(b).update(split_segments(b).len() - 1, split_segments(b).last())
            =~= split_segments(b));
    } else {
        let xd = x.drop_last();
        assert(!xd.contains('/')) by {
            if xd.contains('/') {
                let k = choose|k: int| 0 <= k < xd.len() && xd[k] == '/';
                assert(x[k] == '/');
            }
        }
        lemma_split_append(b, xd);
        assert((b + x).drop_last() =~= b + xd);
        assert(x.last() != '/') by {
            assert(x[x.len() - 1] == x.last());
        }
        assert((b + x).last() == x.last());
        let sb = split_segments(b);
        let sp = split_segments(b + xd);
        assert(sp == sb.update(sb.len() - 1, sb.last() + xd));
        assert(sp.len() == sb.len());
        assert(sp.last() == sb.last() + xd);
        assert((sb.last() + xd).push(x.last()) =~= sb.last() + x);
        assert(split_segments(b + x) == sp.update(sp.len() - 1, sp.last().push(x.last())));
        assert(split_segments(b + x) =~= split_segments(b).update(
            split_segments(b).len() - 1,
            split_segments(b).last() + x,
        ));
    }
}

proof fn lemma_split_join(segs: Seq<Seq<char>>)
    requires
        segs.len() > 0,
        forall|i: int| 0 <= i < segs.len() ==> !(#[trigger] segs[i]).contains('/'),
    ensures
        split_segments(join_segments(segs)) == segs,
    decreases segs.len(),
{
    if segs.len() == 1 {
        lemma_split_append(Seq::empty(), segs[0]);
        assert(Seq::<char>::empty() + segs[0] =~= segs[0]);
        assert(Seq::<char>::empty() + segs[0] =~= segs[0]);
        assert(split_segments(Seq::<char>::empty()).update(0, Seq::<char>::empty() + segs[0])
            =~= segs);
    } else {
        let d = segs.drop_last();
        lemma_split_join(d);
        let a = join_segments(d) + seq!['/'];
        assert(a.drop_last() =~= join_segments(d));
        assert(split_segments(a) == d.push(Seq::empty()));
        assert(!segs.last().contains('/')) by {
            assert(segs[segs.len() - 1] == segs.last());
        }
        lemma_split_append(a, segs.last());
        assert(Seq::<char>::empty() + segs.last() =~= segs.last());
        assert(d.push(Seq::empty()).update(d.len() as int, Seq::<char>::empty() + segs.last())
            =~= segs);
    }
}

/// Appends segment `g` to the local path `out` built from the segments
/// `done`, unless it is `..`; `any` tells whether a segment was kept before,
/// and the answer tells whether one is kept now.
fn push_segment(out: &mut Vec<char>, g: &Vec<char>, any: bool, Ghost(done): Ghost<Seq<Seq<char>>>) -> (res: bool)
    requires
        old(out)@ == join_segments(keep_segments(done)),
        any == (keep_segments(done).len() > 0),
    ensures
        final(out)@ == join_segments(keep_segments(done.push(g@))),
        res == (keep_segments(done.push(g@)).len() > 0),
{
    assert(done.push(g@).drop_last() =~= done);
    let is_parent = g.len() == 2 && g[0] == '.' && g[1] == '.';
    assert(is_parent <==> g@ == parent_segment()) by {
        if g@ == parent_segment() {
            assert(g@[0] == '.' && g@[1] == '.');
        }
        if is_parent {
            assert(g@ =~= parent_segment());
        }
    }
    if is_parent {
        return any;
    }
    let ghost kept = keep_segments(done);
    if any {
        out.push('/');
    }
    let ghost mid = out@;
    let mut k: usize = 0;
    while k < g.len()
        invariant
            k <= g.len(),
            out@ == mid + g@.subrange(0, k as int),
        decreases g.len() - k,
    {
        out.push(g[k]);
        k = k + 1;
        assert(out@ =~= mid + g@.subrange(0, k as int));
    }
    assert(g@.subrange(0, g.len() as int) =~= g@);
    assert(kept.push(g@).drop_last() =~= kept);
    assert(out@ =~= join_segments(kept.push(g@)));
    true
}

/// Everything after the prefix, with its `..` segments dropped and without
/// leading slashes.
pub fn relative_key(prefix: &str, key: &str) -> (res: String)
    ensures
        res@ == relative_key_spec(prefix@, key@),
{
    let ks = chars_of(key);
    let start: usize = if starts_with(key, prefix) {
        chars_of(prefix).len()
    } else {
        0
    };
    let ghost rel = strip_prefix_or_self(key@, prefix@);
    assert(rel =~= ks@.subrange(start as int, ks@.len() as int));
    let mut out: Vec<char> = Vec::new();
    let mut cur: Vec<char> = Vec::new();
    let mut any = false;
    let ghost mut done: Seq<Seq<char>> = Seq::empty();
    let mut k = start;
    assert(rel.subrange(0, 0) =~= Seq::<char>::empty());
    assert(split_segments(Seq::<char>::empty()) =~= done.push(cur@));
    while k < ks.len()
        invariant
            start <= k <= ks.len(),
            rel == ks@.subrange(start as int, ks@.len() as int),
            split_segments(rel.subrange(0, k - start)) == done.push(cur@),
            out@ == join_segments(keep_segments(done)),
            any == (keep_segments(done).len() > 0),
        decreases ks.len() - k,
    {
        let c = ks[k];
        let ghost pre = rel.subrange(0, k - start);
        assert(rel.subrange(0, k + 1 - start).drop_last() =~= pre);
        assert(rel.subrange(0, k + 1 - start).last() == c);
        if c == '/' {
            any = push_segment(&mut out, &cur, any, Ghost(done));
            proof {
                done = done.push(cur@);
            }
            cur = Vec::new();
            assert(split_segments(rel.subrange(0, k + 1 - start)) =~= done.push(cur@));
        } else {
            cur.push(c);
            assert(split_segments(rel.subrange(0, k + 1 - start)) =~= done.push(cur@));
        }
        k = k + 1;
    }
    push_segment(&mut out, &cur, any, Ghost(done));
    assert(rel.subrange(0, rel.len() as int) =~= rel);
    let ghost joined = out@;
    let mut i: usize = 0;
    assert(joined.subrange(0, joined.len() as int) =~= joined);
    while i < out.len() && out[i] == '/'
        invariant
            i <= out.len(),
            out@ == joined,
            trim_start_char(joined, '/') == trim_start_char(
                joined.subrange(i as int, joined.len() as int),
                '/',
            ),
        decreases out.len() - i,
    {
        assert(joined.subrange(i as int, joined.len() as int).drop_first() =~= joined.subrange(
            i + 1,
            joined.len() as int,
        ));
        i = i + 1;
    }
    let ghost tail = joined.subrange(i as int, joined.len() as int);
    assert(trim_start_char(tail, '/') == tail) by {
        if tail.len() > 0 {
            assert(tail[0] == joined[i as int]);
        }
    }
    let mut res: Vec<char> = Vec::new();
    let mut m = i;
    while m < out.len()
        invariant
            i <= m <= out.len(),
            out@ == joined,
            res@ == joined.subrange(i as int, m as int),
        decreases out.len() - m,
    {
        res.push(out[m]);
        m = m + 1;
        assert(res@ =~= joined.subrange(i as int, m as int));
    }
    assert(res@ =~= tail);
    string_from_chars(res.as_slice())
}

/// Local path for a key: everything after the prefix, kept under `out_dir`
/// (see `relative_key`).
pub fn local_path(out_dir: &str, prefix: &str, key: &str) -> (res: PathBuf)
    ensures
        res == path_join(out_dir@, relative_key_spec(prefix@, key@)),
{
    let rel = relative_key(prefix, key);
    join_path(out_dir, rel.as_str())
}

/// A folder named on the command line or in the environment, ending in `/`.
pub open spec fn folder_spec(prefix: Seq<char>) -> Seq<char> {
    if ends_with_char(prefix, '/') {
        prefix
    } else {
        prefix.push('/')
    }
}

/// The folder as listings expect it: ending in `/`.
pub fn normalize_folder(prefix: String) -> (res: String)
    ensures
        res@ == folder_spec(prefix@),
{
    if ends_with(prefix.as_str(), '/') {
        prefix
    } else {
        let mut p = prefix;
        p.append("/");
        proof {
            reveal_strlit("/");
        }
        assert(p@ =~= folder_spec(prefix@));
        p
    }
}

/// The value of an ASCII decimal digit.
pub open spec fn digit_value(c: char) -> nat {
    (c as u32 - '0' as u32) as nat
}

/// Every character is an ASCII decimal digit.
pub open spec fn all_digits(s: Seq<char>) -> bool {
    forall|i: int| 0 <= i < s.len() ==> '0' <= #[trigger] s[i] <= '9'
}

/// The number that the decimal digits `s` write.
pub open spec fn digits_value(s: Seq<char>) -> nat
    decreases s.len(),
{
    if s.len() == 0 {
        0
    } else {
        digits_value(s.drop_last()) * 10 + digit_value(s.last())
    }
}

/// `str::parse::<usize>`: an optional `+` and then at least one ASCII digit,
/// the number fitting in `usize`.
pub open spec fn parse_usize_spec(s: Seq<char>) -> Option<nat> {
    let d = if s.len() > 0 && s[0] == '+' {
        s.drop_first()
    } else {
        s
    };
    if d.len() > 0 && all_digits(d) && digits_value(d) <= usize::MAX {
        Some(digits_value(d))
    } else {
        None
    }
}

/// `str::parse::<usize>`, with `None` for every error.
pub fn parse_usize(s: &str) -> (res: Option<usize>)
    ensures
        match parse_usize_spec(s@) {
            Some(v) => res == Some(v as usize),
            None => res is None,
        },
{
    let cs = chars_of(s);
    let start: usize = if cs.len() > 0 && cs[0] == '+' {
        1
    } else {
        0
    };
    let ghost d = if s@.len() > 0 && s@[0] == '+' {
        s@.drop_first()
    } else {
        s@
    };
    assert(d =~= cs@.subrange(start as int, cs@.len() as int));
    assert(parse_usize_spec(s@) == (if d.len() > 0 && all_digits(d) && digits_value(d)
        <= usize::MAX {
        Some(digits_value(d))
    } else {
        None
    }));
    if start == cs.len() {
        return None;
    }
    let mut value: u128 = 0;
    let mut over = false;
    let mut i = start;
    while i < cs.len()
        invariant
            start <= i <= cs.len(),
            cs@ == s@,
            d == cs@.subrange(start as int, cs@.len() as int),
            parse_usize_spec(s@) == (if d.len() > 0 && all_digits(d) && digits_value(d)
                <= usize::MAX {
                Some(digits_value(d))
            } else {
                None
            }),
            all_digits(cs@.subrange(start as int, i as int)),
            !over ==> value == digits_value(cs@.subrange(start as int, i as int)) && value
                <= usize::MAX,
            over ==> digits_value(cs@.subrange(start as int, i as int)) > usize::MAX,
        decreases cs.len() - i,
    {
        let c = cs[i];
        if !('0' <= c && c <= '9') {
            assert(d[i - start] == c);
            return None;
        }
        let ghost pre = cs@.subrange(start as int, i as int);
        let ghost next = cs@.subrange(start as int, i + 1);
        assert(next.drop_last() =~= pre);
        assert(next.last() == c);
        assert(all_digits(next)) by {
            assert forall|k: int| 0 <= k < next.len() implies '0' <= #[trigger] next[k] <= '9' by {
                if k < pre.len() {
                    assert(next[k] == pre[k]);
                }
            }
        }
        assert(digits_value(next) == digits_value(pre) * 10 + digit_value(c));
        if !over {
            value = value * 10 + (c as u32 - '0' as u32) as u128;
            if value > usize::MAX as u128 {
                over = true;
            }
        }
        i = i + 1;
    }
    assert(cs@.subrange(start as int, cs.len() as int) == d);
    if over {
        None
    } else {
        Some(value as usize)
    }
}

/// How many downloads run at once when nothing else is asked for.
pub const DEFAULT_CONCURRENCY: usize = 8;

/// The number of downloads in flight: the setting when it is a positive
/// number, else the default.
pub open spec fn concurrency_spec(setting: Option<Seq<char>>) -> nat {
    match setting {
        Some(v) => match parse_usize_spec(v) {
            Some(n) => if n > 0 {
                n
            } else {
                DEFAULT_CONCURRENCY as nat
            },
            None => DEFAULT_CONCURRENCY as nat,
        },
        None => DEFAULT_CONCURRENCY as nat,
    }
}

/// The number of downloads in flight, from the `DOWNLOAD_CONCURRENCY` setting.
pub fn download_concurrency(setting: Option<String>) -> (res: usize)
    ensures
        res == concurrency_spec(
            match setting {
                Some(s) => Some(s@),
                None => None,
            },
        ),
        res > 0,
{
    match setting {
        Some(v) => match parse_usize(v.as_str()) {
            Some(n) => if n > 0 {
                n
            } else {
                DEFAULT_CONCURRENCY
            },
            None => DEFAULT_CONCURRENCY,
        },
        None => DEFAULT_CONCURRENCY,
    }
}

/// The keys that name images, in order.
pub open spec fn image_keys(keys: Seq<Seq<char>>) -> Seq<Seq<char>>
    decreases keys.len(),
{
    if keys.len() == 0 {
        Seq::empty()
    } else if is_image_spec(keys.last()) {
        image_keys(keys.drop_last()).push(keys.last())
    } else {
        image_keys(keys.drop_last())
    }
}

/// The keys that do not name images, in order.
pub open spec fn other_keys(keys: Seq<Seq<char>>) -> Seq<Seq<char>>
    decreases keys.len(),
{
    if keys.len() == 0 {
        Seq::empty()
    } else if is_image_spec(keys.last()) {
        other_keys(keys.drop_last())
    } else {
        other_keys(keys.drop_last()).push(keys.last())
    }
}

/// The views of a sequence of strings.
pub open spec fn views(v: Seq<String>) -> Seq<Seq<char>> {
    v.map_values(|s: String| s@)
}

/// Splits the listed keys into images and the rest, each in listing order.
pub fn split_images(keys: Vec<String>) -> (res: (Vec<String>, Vec<String>))
    ensures
        views(res.0@) == image_keys(views(keys@)),
        views(res.1@) == other_keys(views(keys@)),
{
    let ghost kv = views(keys@);
    let mut images: Vec<String> = Vec::new();
    let mut skipped: Vec<String> = Vec::new();
    let mut i: usize = 0;
    while i < keys.len()
        invariant
            i <= keys.len(),
            kv == views(keys@),
            views(images@) == image_keys(kv.subrange(0, i as int)),
            views(skipped@) == other_keys(kv.subrange(0, i as int)),
        decreases keys.len() - i,
    {
        let ghost sub = kv.subrange(0, i + 1);
        assert(sub.drop_last() =~= kv.subrange(0, i as int));
        assert(sub.last() == keys@[i as int]@);
        let ghost bi = images@;
        let ghost bs = skipped@;
        if is_image(keys[i].as_str()) {
            images.push(keys[i].clone());
            assert(views(images@) =~= views(bi).push(keys@[i as int]@));
        } else {
            skipped.push(keys[i].clone());
            assert(views(skipped@) =~= views(bs).push(keys@[i as int]@));
        }
        i = i + 1;
    }
    assert(kv.subrange(0, keys.len() as int) =~= kv);
    (images, skipped)
}

/// The first argument that is not a flag (flags start with `--`).
pub open spec fn first_positional_spec(args: Seq<Seq<char>>) -> Option<Seq<char>>
    decreases args.len(),
{
    if args.len() == 0 {
        None
    } else if !starts_with_str(args[0], "--"@) {
        Some(args[0])
    } else {
        first_positional_spec(args.drop_first())
    }
}

/// The first argument that is not a flag: the folder to work on.
pub fn first_positional(args: &[String]) -> (res: Option<String>)
    ensures
        match res {
            Some(a) => first_positional_spec(views(args@)) == Some(a@),
            None => first_positional_spec(views(args@)) is None,
        },
{
    let ghost av = views(args@);
    let mut i: usize = 0;
    assert(av.subrange(0, av.len() as int) =~= av);
    while i < args.len()
        invariant
            i <= args.len(),
            av == views(args@),
            first_positional_spec(av) == first_positional_spec(
                av.subrange(i as int, av.len() as int),
            ),
        decreases args.len() - i,
    {
        let ghost rest = av.subrange(i as int, av.len() as int);
        assert(rest[0] == args@[i as int]@);
        if !starts_with(args[i].as_str(), "--") {
            return Some(args[i].clone());
        }
        assert(rest.drop_first() =~= av.subrange(i + 1, av.len() as int));
        i = i + 1;
    }
    None
}

/// Whether `flag` is among the arguments.
pub fn has_flag(args: &[String], flag: &str) -> (res: bool)
    ensures
        res == views(args@).contains(flag@),
{
    let target = String::from_str(flag);
    let mut i: usize = 0;
    while i < args.len()
        invariant
            i <= args.len(),
            target@ == flag@,
            forall|j: int| 0 <= j < i ==> args@[j]@ != flag@,
        decreases args.len() - i,
    {
        if args[i] == target {
            assert(views(args@)[i as int] == flag@);
            return true;
        }
        i = i + 1;
    }
    assert forall|j: int| 0 <= j < views(args@).len() implies views(args@)[j] != flag@ by {
        assert(views(args@)[j] == args@[j]@);
    }
    false
}

/// A normalized folder ends in `/`, and normalizing it again changes nothing.
pub proof fn lemma_folder_normalized(prefix: Seq<char>)
    ensures
        ends_with_char(folder_spec(prefix), '/'),
        folder_spec(folder_spec(prefix)) == folder_spec(prefix),
{
}

/// The part of a key kept under the download folder never starts at the
/// root, and none of its segments is `..`: joined to the folder, it names a
/// path inside that folder.
pub proof fn lemma_relative_key_stays_inside(prefix: Seq<char>, key: Seq<char>)
    ensures
        relative_key_spec(prefix, key).len() > 0 ==> relative_key_spec(prefix, key)[0] != '/',
        forall|i: int|
            0 <= i < split_segments(relative_key_spec(prefix, key)).len() ==> #[trigger] split_segments(
                relative_key_spec(prefix, key),
            )[i] != parent_segment(),
{
    let segs = split_segments(strip_prefix_or_self(key, prefix));
    let kept = keep_segments(segs);
    let joined = join_segments(kept);
    let r = relative_key_spec(prefix, key);
    lemma_keep_kept(segs);
    lemma_split_no_slash(strip_prefix_or_self(key, prefix));
    lemma_trim_start_char_first(joined, '/');
    lemma_split_trim(joined);
    assert(Seq::<char>::empty() != parent_segment()) by {
        assert(parent_segment().len() == 2);
    }
    if kept.len() == 0 {
        assert(split_segments(joined) =~= seq![Seq::<char>::empty()]);
    } else {
        assert forall|i: int| 0 <= i < kept.len() implies !(#[trigger] kept[i]).contains('/') by {
            let j = choose|j: int| 0 <= j < segs.len() && segs[j] == kept[i];
        }
        lemma_split_join(kept);
    }
    assert forall|i: int| 0 <= i < split_segments(r).len() implies #[trigger] split_segments(r)[i]
        != parent_segment() by {
        let g = split_segments(r)[i];
        assert(split_segments(joined).contains(g));
    }
}

/// A key made of the prefix and a remainder that neither starts with `/`
/// nor has a `..` segment keeps that remainder whole: its local path is
/// the download folder joined with everything after the prefix.
pub proof fn lemma_relative_key_of_plain_key(prefix: Seq<char>, rel: Seq<char>)
    requires
        rel.len() > 0 ==> rel[0] != '/',
        forall|i: int|
            0 <= i < split_segments(rel).len() ==> #[trigger] split_segments(rel)[i]
                != parent_segment(),
    ensures
        relative_key_spec(prefix, prefix + rel) == rel,
{
    assert(prefix.is_prefix_of(prefix + rel)) by {
        assert((prefix + rel).subrange(0, prefix.len() as int) =~= prefix);
    }
    assert((prefix + rel).subrange(prefix.len() as int, (prefix + rel).len() as int) =~= rel);
    lemma_keep_all(split_segments(rel));
    lemma_join_split(rel);
}

proof fn lemma_trim_start_char_first(s: Seq<char>, c: char)
    ensures
        trim_start_char(s, c).len() > 0 ==> trim_start_char(s, c)[0] != c,
    decreases s.len(),
{
    if s.len() > 0 && s[0] == c {
        lemma_trim_start_char_first(s.drop_first(), c);
    }
}

proof fn lemma_keep_all(segs: Seq<Seq<char>>)
    requires
        forall|i: int| 0 <= i < segs.len() ==> #[trigger] segs[i] != parent_segment(),
    ensures
        keep_segments(segs) == segs,
    decreases segs.len(),
{
    if segs.len() > 0 {
        lemma_keep_all(segs.drop_last());
        assert(segs[segs.len() - 1] == segs.last());
        assert(segs.drop_last().push(segs.last()) =~= segs);
    }
}

proof fn lemma_join_split(s: Seq<char>)
    ensures
        join_segments(split_segments(s)) == s,
    decreases s.len(),
{
    if s.len() > 0 {
        let d = s.drop_last();
        lemma_join_split(d);
        lemma_split_nonempty(d);
        let sp = split_segments(d);
        if s.last() == '/' {
            assert(sp.push(Seq::<char>::empty()).drop_last() =~= sp);
            assert(join_segments(sp) + seq!['/'] + Seq::<char>::empty() =~= s);
        } else {
            let u = sp.update(sp.len() - 1, sp.last().push(s.last()));
            if sp.len() == 1 {
                assert(u[0] == sp[0].push(s.last()));
                assert(sp[0] == join_segments(sp));
                assert(u[0] =~= s);
            } else {
                assert(u.drop_last() =~= sp.drop_last());
                assert(u.len() == sp.len());
                assert(u.last() == sp.last().push(s.last()));
                assert(join_segments(sp) == join_segments(sp.drop_last()) + seq!['/'] + sp.last());
                assert(join_segments(u) == join_segments(sp.drop_last()) + seq!['/'] + sp.last().push(
                    s.last(),
                ));
                assert(s =~= d.push(s.last()));
                assert(join_segments(u) =~= s);
            }
        }
    }
}

proof fn lemma_split_cons(t: Seq<char>)
    ensures
        split_segments(seq!['/'] + t) == seq![Seq::<char>::empty()] + split_segments(t),
    decreases t.len(),
{
    let a = seq!['/'] + t;
    if t.len() == 0 {
        assert(a =~= seq!['/']);
        assert(a.drop_last() =~= Seq::<char>::empty());
        assert(a.last() == '/');
        assert(split_segments(a) == split_segments(Seq::<char>::empty()).push(Seq::<char>::empty()));
        assert(t =~= Seq::<char>::empty());
        assert(split_segments(a) =~= seq![Seq::<char>::empty()] + split_segments(t));
    } else {
        let d = t.drop_last();
        lemma_split_cons(d);
        lemma_split_nonempty(d);
        assert(a.drop_last() =~= seq!['/'] + d);
        assert(a.last() == t.last());
        let sd = split_segments(d);
        let e = seq![Seq::<char>::empty()];
        let sa = split_segments(seq!['/'] + d);
        assert(sa == e + sd);
        if t.last() == '/' {
            assert(split_segments(a) == sa.push(Seq::<char>::empty()));
            assert(split_segments(t) == sd.push(Seq::<char>::empty()));
            assert(split_segments(a) =~= e + split_segments(t));
        } else {
            assert(sa.len() == sd.len() + 1);
            assert(sa.last() == sd.last());
            assert(split_segments(a) == sa.update(sa.len() - 1, sa.last().push(t.last())));
            assert(split_segments(t) == sd.update(sd.len() - 1, sd.last().push(t.last())));
            assert(split_segments(a) =~= e + split_segments(t));
        }
    }
}

proof fn lemma_split_trim(s: Seq<char>)
    ensures
        forall|i: int|
            0 <= i < split_segments(trim_start_char(s, '/')).len() ==> split_segments(s).contains(
                #[trigger] split_segments(trim_start_char(s, '/'))[i],
            ),
    decreases s.len(),
{
    if s.len() > 0 && s[0] == '/' {
        let t = s.drop_first();
        lemma_split_trim(t);
        assert(s =~= seq!['/'] + t);
        lemma_split_cons(t);
        assert(trim_start_char(s, '/') == trim_start_char(t, '/'));
        assert forall|i: int| 0 <= i < split_segments(trim_start_char(s, '/')).len() implies split_segments(
            s,
        ).contains(#[trigger] split_segments(trim_start_char(s, '/'))[i]) by {
            let g = split_segments(trim_start_char(s, '/'))[i];
            assert(split_segments(t).contains(g));
            let j = choose|j: int| 0 <= j < split_segments(t).len() && split_segments(t)[j] == g;
            assert(split_segments(s) == seq![Seq::<char>::empty()] + split_segments(t));
            assert(split_segments(s)[j + 1] == g);
        }
    } else {
        assert forall|i: int| 0 <= i < split_segments(trim_start_char(s, '/')).len() implies split_segments(
            s,
        ).contains(#[trigger] split_segments(trim_start_char(s, '/'))[i]) by {}
    }
}

/// Whether an extension names an image does not depend on the letter case
/// of its ASCII letters: two extensions that lower-case alike are judged
/// alike.
pub proof fn lemma_image_extension_ignores_case(a: Seq<char>, b: Seq<char>)
    requires
        a.len() == b.len(),
        forall|i: int| 0 <= i < a.len() ==> ascii_lower_code(a[i]) == ascii_lower_code(b[i]),
    ensures
        is_image_extension_spec(Some(a)) == is_image_extension_spec(Some(b)),
{
    assert forall|t: Seq<char>| lowercase_equals(a, t) == lowercase_equals(b, t) by {
        if lowercase_equals(a, t) {
            assert forall|i: int| 0 <= i < b.len() implies ascii_lower_code(#[trigger] b[i])
                == t[i] as u32 by {
                assert(ascii_lower_code(a[i]) == t[i] as u32);
            }
        }
        if lowercase_equals(b, t) {
            assert forall|i: int| 0 <= i < a.len() implies ascii_lower_code(#[trigger] a[i])
                == t[i] as u32 by {
                assert(ascii_lower_code(b[i]) == t[i] as u32);
            }
        }
    }
}

/// The image extensions are exactly jpg, jpeg, png, gif, bmp, webp, tif and
/// tiff, in any ASCII letter case.
pub proof fn lemma_image_extensions_are_the_eight(e: Seq<char>)
    ensures
        is_image_extension_spec(Some(e)) <==> {
            ||| lowercase_equals(e, "jpg"@)
            ||| lowercase_equals(e, "jpeg"@)
            ||| lowercase_equals(e, "png"@)
            ||| lowercase_equals(e, "gif"@)
            ||| lowercase_equals(e, "bmp"@)
            ||| lowercase_equals(e, "webp"@)
            ||| lowercase_equals(e, "tif"@)
            ||| lowercase_equals(e, "tiff"@)
        },
        !is_image_extension_spec(None),
{
    let x = image_extensions();
    assert(x.len() == 8);
    assert(x[0] == "jpg"@);
    assert(x[1] == "jpeg"@);
    assert(x[2] == "png"@);
    assert(x[3] == "gif"@);
    assert(x[4] == "bmp"@);
    assert(x[5] == "webp"@);
    assert(x[6] == "tif"@);
    assert(x[7] == "tiff"@);
}

/// A key is downloaded as an image exactly when the extension of its path
/// is one of the eight image extensions, in any ASCII letter case.
pub proof fn lemma_image_keys(key: Seq<char>)
    ensures
        is_image_spec(key) <==> match path_extension(key) {
            Some(e) => {
                ||| lowercase_equals(e, "jpg"@)
                ||| lowercase_equals(e, "jpeg"@)
                ||| lowercase_equals(e, "png"@)
                ||| lowercase_equals(e, "gif"@)
                ||| lowercase_equals(e, "bmp"@)
                ||| lowercase_equals(e, "webp"@)
                ||| lowercase_equals(e, "tif"@)
                ||| lowercase_equals(e, "tiff"@)
            },
            None => false,
        },
{
    match path_extension(key) {
        Some(e) => lemma_image_extensions_are_the_eight(e),
        None => {},
    }
}

/// The number of downloads in flight is the setting when it parses as a
/// positive number, and 8 when it is missing, does not parse, or is 0.
pub proof fn lemma_concurrency_setting(setting: Option<Seq<char>>)
    ensures
        match setting {
            Some(v) => match parse_usize_spec(v) {
                Some(n) => n > 0 ==> concurrency_spec(setting) == n,
                None => concurrency_spec(setting) == 8,
            },
            None => concurrency_spec(setting) == 8,
        },
        setting matches Some(v) && parse_usize_spec(v) == Some(0nat) ==> concurrency_spec(setting)
            == 8,
{
}

proof fn lemma_digit_char_value(d: int)
    requires
        0 <= d < 10,
    ensures
        '0' <= digit_char(d) <= '9',
        digit_value(digit_char(d)) == d,
{
}

proof fn lemma_decimal_digits(n: nat)
    ensures
        decimal(n).len() > 0,
        all_digits(decimal(n)),
        digits_value(decimal(n)) == n,
        decimal(n)[0] != '+',
    decreases n,
{
    if n < 10 {
        lemma_digit_char_value(n as int);
        let s = decimal(n);
        assert(s.drop_last() =~= Seq::<char>::empty());
        assert(digits_value(Seq::<char>::empty()) == 0);
        assert(digits_value(s) == digits_value(s.drop_last()) * 10 + digit_value(s.last()));
    } else {
        lemma_decimal_digits(n / 10);
        lemma_digit_char_value((n % 10) as int);
        let d = decimal(n / 10);
        let s = decimal(n);
        assert(s == d.push(digit_char((n % 10) as int)));
        assert(s.drop_last() =~= d);
        assert(all_digits(s)) by {
            assert forall|i: int| 0 <= i < s.len() implies '0' <= #[trigger] s[i] <= '9' by {
                if i < d.len() {
                    assert(s[i] == d[i]);
                }
            }
        }
        assert(s[0] == d[0]);
        assert(s.last() == digit_char((n % 10) as int));
        assert(digits_value(s) == digits_value(d) * 10 + digit_value(s.last()));
        assert(n == (n / 10) * 10 + n % 10);
    }
}

/// A setting written as the decimal digits of a number that fits parses
/// back to that number, so a positive one sets the downloads in flight.
pub proof fn lemma_concurrency_of_decimal(n: nat)
    requires
        0 < n <= usize::MAX,
    ensures
        parse_usize_spec(decimal(n)) == Some(n),
        concurrency_spec(Some(decimal(n))) == n,
{
    lemma_decimal_digits(n);
}

} // verus!
