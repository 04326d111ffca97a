//! The command line of the benchmark runner: compressor names and
//! selections, image files, categories, and argument parsing.
use crate::text::{chars_eq, chars_eq_ignore_ascii_case, chars_of, comma_parts, comma_pieces, eq_ignore_ascii_case, lower_code};
use vstd::prelude::*;
use vstd::string::StringSliceAdditionalSpecFns;
use vstd::utf8::{decode_utf8, encode_utf8_decode_utf8, is_char_boundary};

verus! {

/// The names of the compressors, in display order.
pub open spec fn known_names() -> Seq<Seq<char>> {
    seq!["PNG"@, "RLE"@, "RLCE"@, "Huffman"@]
}

/// `p` names a compressor, up to ASCII case.
pub open spec fn is_known_name(p: Seq<char>) -> bool {
    exists|j: int| 0 <= j < known_names().len() && eq_ignore_ascii_case(p, #[trigger] known_names()[j])
}

/// `p` is `all`, up to ASCII case.
pub open spec fn is_all(p: Seq<char>) -> bool {
    eq_ignore_ascii_case(p, "all"@)
}

/// Names of all compressors, for usage messages and the picker.
pub fn compressor_names() -> (names: Vec<&'static str>)
    ensures
        names@.map_values(|n: &str| n@) == known_names(),
{
    let names = vec!["PNG", "RLE", "RLCE", "Huffman"];
    proof {
        assert(names@.map_values(|n: &str| n@) =~= known_names());
    }
    names
}

fn is_known_name_exec(p: &[char], names: &Vec<&'static str>) -> (b: bool)
    requires
        names@.map_values(|n: &str| n@) == known_names(),
    ensures
        b == is_known_name(p@),
{
    let mut j: usize = 0;
    while j < names.len()
        invariant
            j <= names@.len(),
            names@.map_values(|n: &str| n@) == known_names(),
            forall|i: int| 0 <= i < j ==> !eq_ignore_ascii_case(p@, #[trigger] known_names()[i]),
        decreases names@.len() - j,
    {
        let name = chars_of(names[j]);
        assert(known_names()[j as int] == names@[j as int]@);
        if chars_eq_ignore_ascii_case(p, name.as_slice()) {
            return true;
        }
        j += 1;
    }
    false
}

/// Every non-empty comma-separated part of `spec` names a known compressor
/// or `all`, and there is at least one.
pub open spec fn spec_is_compressor_spec(spec: Seq<char>) -> bool {
    let parts = comma_parts(spec);
    &&& exists|i: int| 0 <= i < parts.len() && (#[trigger] parts[i]).len() > 0
    &&& forall|i: int|
        0 <= i < parts.len() && (#[trigger] parts[i]).len() > 0 ==> is_all(parts[i])
            || is_known_name(parts[i])
}

/// True if every comma-separated part of `spec` names a known compressor (or
/// `all`), so a bare word like `huffman` or `rle,png` can be recognised as a
/// compressor selection rather than a path.
pub fn is_compressor_spec(spec: &str) -> (b: bool)
    ensures
        b == spec_is_compressor_spec(spec@),
{
    let parts = comma_pieces(spec);
    let ghost ps = comma_parts(spec@);
    let names = compressor_names();
    let all = chars_of("all");
    let mut any = false;
    let mut i: usize = 0;
    while i < parts.len()
        invariant
            i <= parts@.len(),
            parts@.map_values(|p: String| p@) == ps,
            ps == comma_parts(spec@),
            all@ == "all"@,
            names@.map_values(|n: &str| n@) == known_names(),
            any == exists|j: int| 0 <= j < i && (#[trigger] ps[j]).len() > 0,
            forall|j: int|
                0 <= j < i && (#[trigger] ps[j]).len() > 0 ==> is_all(ps[j]) || is_known_name(ps[j]),
        decreases parts@.len() - i,
    {
        let p = chars_of(parts[i].as_str());
        assert(p@ == ps[i as int]);
        if p.len() > 0 {
            if !chars_eq_ignore_ascii_case(p.as_slice(), all.as_slice())
                && !is_known_name_exec(p.as_slice(), &names) {
                return false;
            }
            any = true;
        }
        i += 1;
    }
    any
}

/// Index of the first non-empty part that names no compressor, from `i`
/// on.
pub open spec fn first_unknown(parts: Seq<Seq<char>>, i: int) -> Option<int>
    decreases parts.len() - i,
{
    if i >= parts.len() || i < 0 {
        None
    } else if parts[i].len() > 0 && !is_known_name(parts[i]) {
        Some(i)
    } else {
        first_unknown(parts, i + 1)
    }
}

/// Some non-empty part equals `name` up to ASCII case.
pub open spec fn is_wanted(name: Seq<char>, parts: Seq<Seq<char>>) -> bool {
    exists|i: int| 0 <= i < parts.len() && (#[trigger] parts[i]).len() > 0 && eq_ignore_ascii_case(name, parts[i])
}

/// The names of `names` that are wanted, in order.
pub open spec fn wanted_names(names: Seq<Seq<char>>, parts: Seq<Seq<char>>) -> Seq<Seq<char>>
    decreases names.len(),
{
    if names.len() == 0 {
        Seq::empty()
    } else {
        let r = wanted_names(names.drop_last(), parts);
        if is_wanted(names.last(), parts) {
            r.push(names.last())
        } else {
            r
        }
    }
}

/// The selection that a `--compressor` spec makes: every compressor for
/// `all`, else the first part that names no compressor is the error, else
/// the named compressors in display order.
pub open spec fn spec_select(spec: Seq<char>) -> Result<Seq<Seq<char>>, Seq<char>> {
    if is_all(spec) {
        Ok(known_names())
    } else {
        match first_unknown(comma_parts(spec), 0) {
            Some(i) => Err(comma_parts(spec)[i]),
            None => Ok(wanted_names(known_names(), comma_parts(spec))),
        }
    }
}

/// Resolve a `--compressor` spec into compressor names.
///
/// `"all"` (case-insensitive) returns every compressor. Otherwise the spec is a
/// comma-separated list of names matched case-insensitively. An unknown name is
/// returned as an `Err` so the caller can report it.
pub fn select_compressors(spec: &str) -> (res: Result<Vec<&'static str>, String>)
    ensures
        match spec_select(spec@) {
            Ok(names) => res matches Ok(v) && v@.map_values(|n: &str| n@) == names,
            Err(w) => res matches Err(e) && e@ == w,
        },
{
    let names = compressor_names();
    let all = chars_of("all");
    let chars = chars_of(spec);
    if chars_eq_ignore_ascii_case(chars.as_slice(), all.as_slice()) {
        return Ok(names);
    }
    let parts = comma_pieces(spec);
    let ghost ps = comma_parts(spec@);
    let mut i: usize = 0;
    while i < parts.len()
        invariant
            i <= parts@.len(),
            parts@.map_values(|p: String| p@) == ps,
            ps == comma_parts(spec@),
            names@.map_values(|n: &str| n@) == known_names(),
            first_unknown(ps, 0) == first_unknown(ps, i as int),
            !is_all(spec@),
        decreases parts@.len() - i,
    {
        let p = chars_of(parts[i].as_str());
        assert(p@ == ps[i as int]);
        if p.len() > 0 && !is_known_name_exec(p.as_slice(), &names) {
            proof {
                assert(first_unknown(ps, i as int) == Some(i as int));
                assert(parts@.map_values(|p: String| p@)[i as int] == parts@[i as int]@);
            }
            return Err(parts[i].clone());
        }
        i += 1;
    }
    let mut selected: Vec<&'static str> = Vec::new();
    let mut j: usize = 0;
    while j < names.len()
        invariant
            j <= names@.len(),
            names@.map_values(|n: &str| n@) == known_names(),
            parts@.map_values(|p: String| p@) == ps,
            ps == comma_parts(spec@),
            selected@.map_values(|n: &str| n@) == wanted_names(known_names().take(j as int), ps),
            !is_all(spec@),
            first_unknown(ps, 0) is None,
        decreases names@.len() - j,
    {
        let name = chars_of(names[j]);
        let ghost before = selected@;
        proof {
            assert(known_names().take(j + 1).drop_last() =~= known_names().take(j as int));
            assert(known_names().take(j + 1).last() == names@[j as int]@);
        }
        let mut wanted = false;
        let mut k: usize = 0;
        while k < parts.len()
            invariant
                k <= parts@.len(),
                parts@.map_values(|p: String| p@) == ps,
                name@ == names@[j as int]@,
                wanted == exists|t: int| 0 <= t < k && (#[trigger] ps[t]).len() > 0 && eq_ignore_ascii_case(name@, ps[t]),
            decreases parts@.len() - k,
        {
            let p = chars_of(parts[k].as_str());
            assert(p@ == ps[k as int]);
            if p.len() > 0 && chars_eq_ignore_ascii_case(name.as_slice(), p.as_slice()) {
                wanted = true;
            }
            k += 1;
        }
        if wanted {
            selected.push(names[j]);
            proof {
                assert(selected@.map_values(|n: &str| n@) =~= before.map_values(|n: &str| n@).push(
                    names@[j as int]@,
                ));
            }
        }
        j += 1;
    }
    proof {
        assert(known_names().take(4) =~= known_names());
    }
    Ok(selected)
}

proof fn lemma_none_unknown(parts: Seq<Seq<char>>, i: int)
    requires
        0 <= i,
        forall|j: int| 0 <= j < parts.len() && (#[trigger] parts[j]).len() > 0 ==> is_known_name(parts[j]),
    ensures
        first_unknown(parts, i) is None,
    decreases parts.len() - i,
{
    if i < parts.len() {
        lemma_none_unknown(parts, i + 1);
    }
}

proof fn lemma_wanted_kept(names: Seq<Seq<char>>, parts: Seq<Seq<char>>, j: int)
    requires
        0 <= j < names.len(),
        is_wanted(names[j], parts),
    ensures
        wanted_names(names, parts).contains(names[j]),
    decreases names.len(),
{
    let r = wanted_names(names.drop_last(), parts);
    if j == names.len() - 1 {
        assert(wanted_names(names, parts) == r.push(names.last()));
        assert(wanted_names(names, parts)[r.len() as int] == names[j]);
    } else {
        assert(names.drop_last()[j] == names[j]);
        lemma_wanted_kept(names.drop_last(), parts, j);
        let k = choose|k: int| 0 <= k < r.len() && r[k] == names[j];
        if is_wanted(names.last(), parts) {
            assert(wanted_names(names, parts)[k] == names[j]);
        } else {
            assert(wanted_names(names, parts)[k] == names[j]);
        }
    }
}

/// A word that the argument parser takes for a compressor selection selects
/// at least one compressor and names no unknown one, unless it asks for
/// `all` in one of several parts (as `all,rle` does, which fails on `all`).
pub proof fn lemma_compressor_spec_selects(spec: Seq<char>)
    requires
        spec_is_compressor_spec(spec),
        is_all(spec) || forall|i: int| 0 <= i < comma_parts(spec).len() && (#[trigger] comma_parts(spec)[i]).len() > 0
            ==> !is_all(comma_parts(spec)[i]),
    ensures
        spec_select(spec) matches Ok(names) && names.len() > 0,
{
    let parts = comma_parts(spec);
    if !is_all(spec) {
        lemma_none_unknown(parts, 0);
        let i = choose|i: int| 0 <= i < parts.len() && (#[trigger] parts[i]).len() > 0;
        assert(is_known_name(parts[i]));
        let j = choose|j: int| 0 <= j < known_names().len() && eq_ignore_ascii_case(parts[i], #[trigger] known_names()[j]);
        assert(is_wanted(known_names()[j], parts));
        lemma_wanted_kept(known_names(), parts, j);
    }
}

/// File extensions of the images that the runner picks up.
pub open spec fn image_exts() -> Seq<Seq<char>> {
    seq!["png"@, "jpg"@, "jpeg"@, "bmp"@, "gif"@, "webp"@, "tif"@, "tiff"@, "ppm"@, "pgm"@, "qoi"@]
}

/// The extension is one of the runner's image extensions, up to ASCII
/// case.
pub open spec fn is_image_extension(e: Seq<char>) -> bool {
    ||| eq_ignore_ascii_case(e, "png"@)
    ||| eq_ignore_ascii_case(e, "jpg"@)
    ||| eq_ignore_ascii_case(e, "jpeg"@)
    ||| eq_ignore_ascii_case(e, "bmp"@)
    ||| eq_ignore_ascii_case(e, "gif"@)
    ||| eq_ignore_ascii_case(e, "webp"@)
    ||| eq_ignore_ascii_case(e, "tif"@)
    ||| eq_ignore_ascii_case(e, "tiff"@)
    ||| eq_ignore_ascii_case(e, "ppm"@)
    ||| eq_ignore_ascii_case(e, "pgm"@)
    ||| eq_ignore_ascii_case(e, "qoi"@)
}

proof fn lemma_eq_ignore_case_symmetric(a: Seq<char>, b: Seq<char>)
    ensures
        eq_ignore_ascii_case(a, b) == eq_ignore_ascii_case(b, a),
{
    if eq_ignore_ascii_case(a, b) {
        assert forall|i: int| 0 <= i < b.len() implies lower_code(#[trigger] b[i]) == lower_code(a[i]) by {
            assert(lower_code(a[i]) == lower_code(b[i]));
        }
    }
    if eq_ignore_ascii_case(b, a) {
        assert forall|i: int| 0 <= i < a.len() implies lower_code(#[trigger] a[i]) == lower_code(b[i]) by {
            assert(lower_code(b[i]) == lower_code(a[i]));
        }
    }
}

proof fn lemma_image_exts_listed(e: Seq<char>)
    ensures
        (exists|j: int| 0 <= j < image_exts().len() && eq_ignore_ascii_case(#[trigger] image_exts()[j], e))
            == is_image_extension(e),
{
    let x = image_exts();
    assert forall|j: int| 0 <= j < x.len() implies eq_ignore_ascii_case(#[trigger] x[j], e) == eq_ignore_ascii_case(e, x[j]) by {
        lemma_eq_ignore_case_symmetric(x[j], e);
    }
    assert(x[0] == "png"@ && x[1] == "jpg"@ && x[2] == "jpeg"@ && x[3] == "bmp"@ && x[4] == "gif"@);
    assert(x[5] == "webp"@ && x[6] == "tif"@ && x[7] == "tiff"@ && x[8] == "ppm"@ && x[9] == "pgm"@);
    assert(x[10] == "qoi"@);
    if is_image_extension(e) {
        if eq_ignore_ascii_case(e, "png"@) { assert(eq_ignore_ascii_case(x[0], e)); }
        else if eq_ignore_ascii_case(e, "jpg"@) { assert(eq_ignore_ascii_case(x[1], e)); }
        else if eq_ignore_ascii_case(e, "jpeg"@) { assert(eq_ignore_ascii_case(x[2], e)); }
        else if eq_ignore_ascii_case(e, "bmp"@) { assert(eq_ignore_ascii_case(x[3], e)); }
        else if eq_ignore_ascii_case(e, "gif"@) { assert(eq_ignore_ascii_case(x[4], e)); }
        else if eq_ignore_ascii_case(e, "webp"@) { assert(eq_ignore_ascii_case(x[5], e)); }
        else if eq_ignore_ascii_case(e, "tif"@) { assert(eq_ignore_ascii_case(x[6], e)); }
        else if eq_ignore_ascii_case(e, "tiff"@) { assert(eq_ignore_ascii_case(x[7], e)); }
        else if eq_ignore_ascii_case(e, "ppm"@) { assert(eq_ignore_ascii_case(x[8], e)); }
        else if eq_ignore_ascii_case(e, "pgm"@) { assert(eq_ignore_ascii_case(x[9], e)); }
        else { assert(eq_ignore_ascii_case(x[10], e)); }
    }
}

/// A file with this extension (matched up to ASCII case) is an image: the
/// extensions are png, jpg, jpeg, bmp, gif, webp, tif, tiff, ppm, pgm and
/// qoi.
pub fn is_image(extension: Option<&str>) -> (b: bool)
    ensures
        b == match extension {
            Some(e) => exists|j: int| 0 <= j < image_exts().len() && eq_ignore_ascii_case(
                #[trigger] image_exts()[j],
                e@,
            ),
            None => false,
        },
        b == match extension {
            Some(e) => is_image_extension(e@),
            None => false,
        },
        extension matches Some(e) && (e@ == "png"@ || e@ == "jpg"@ || e@ == "jpeg"@ || e@ == "bmp"@ || e@ == "gif"@
            || e@ == "webp"@ || e@ == "tif"@ || e@ == "tiff"@ || e@ == "ppm"@ || e@ == "pgm"@ || e@ == "qoi"@) ==> b,
{
    proof {
        if let Some(e) = extension {
            lemma_image_exts_listed(e@);
        }
    }
    let exts = vec!["png", "jpg", "jpeg", "bmp", "gif", "webp", "tif", "tiff", "ppm", "pgm", "qoi"];
    proof {
        assert(exts@.map_values(|n: &str| n@) =~= image_exts());
    }
    match extension {
        None => false,
        Some(e) => {
            let ec = chars_of(e);
            let mut j: usize = 0;
            while j < exts.len()
                invariant
                    j <= exts@.len(),
                    exts@.map_values(|n: &str| n@) == image_exts(),
                    ec@ == e@,
                    extension == Some(e),
                    forall|i: int| 0 <= i < j ==> !eq_ignore_ascii_case(#[trigger] image_exts()[i], e@),
                decreases exts@.len() - j,
            {
                let x = chars_of(exts[j]);
                assert(image_exts()[j as int] == exts@[j as int]@);
                if chars_eq_ignore_ascii_case(x.as_slice(), ec.as_slice()) {
                    proof {
                        assert(eq_ignore_ascii_case(image_exts()[j as int], e@));
                        lemma_image_exts_listed(e@);
                    }
                    return true;
                }
                j += 1;
            }
            proof {
                lemma_image_exts_listed(e@);
            }
            false
        },
    }
}

/// Index of the last element of `dirs` equal to `x`.
pub open spec fn last_index_of(dirs: Seq<Seq<char>>, x: Seq<char>) -> Option<int>
    decreases dirs.len(),
{
    if dirs.len() == 0 {
        None
    } else if dirs.last() == x {
        Some(dirs.len() - 1)
    } else {
        last_index_of(dirs.drop_last(), x)
    }
}

/// The category of an image whose containing directories, outermost first,
/// are `dirs`.
pub open spec fn spec_category(dirs: Seq<Seq<char>>) -> Seq<char> {
    match last_index_of(dirs, "images"@) {
        Some(i) => if i + 1 < dirs.len() {
            dirs[i + 1]
        } else {
            "images"@
        },
        None => if dirs.len() > 0 {
            dirs.last()
        } else {
            "(root)"@
        },
    }
}

/// The category an image belongs to: the directory directly under `images/`
/// (`math`, `real-life`, ...). Images outside the library fall back to the name
/// of their containing directory. `dirs` are the names of the directories
/// that contain the image, outermost first.
pub fn category(dirs: &Vec<String>) -> (c: String)
    ensures
        c@ == spec_category(dirs@.map_values(|d: String| d@)),
{
    let ghost ds = dirs@.map_values(|d: String| d@);
    let images = "images".to_string();
    let mut i: usize = dirs.len();
    proof {
        assert(ds.take(dirs@.len() as int) =~= ds);
    }
    while i > 0
        invariant
            i <= dirs@.len(),
            images@ == "images"@,
            ds == dirs@.map_values(|d: String| d@),
            last_index_of(ds, "images"@) == last_index_of(ds.take(i as int), "images"@),
        decreases i,
    {
        let ghost t = ds.take(i as int);
        proof {
            assert(t.drop_last() =~= ds.take(i - 1));
            assert(t.last() == dirs@[i - 1]@);
        }
        if dirs[i - 1] == images {
            proof {
                assert(last_index_of(ds, "images"@) == Some(i - 1));
            }
            if i < dirs.len() {
                return dirs[i].clone();
            } else {
                return images;
            }
        }
        i -= 1;
    }
    proof {
        assert(ds.take(0) =~= Seq::<Seq<char>>::empty());
    }
    if dirs.len() > 0 {
        dirs[dirs.len() - 1].clone()
    } else {
        "(root)".to_string()
    }
}

/// `s`, or, when it is longer than `max` bytes, its first `max - 1` bytes
/// followed by an ellipsis.
pub fn truncate(s: &str, max: usize) -> (r: String)
    requires
        s.spec_bytes().len() > max ==> is_char_boundary(
            s.spec_bytes(),
            if max >= 1 { max - 1 } else { 0 },
        ),
    ensures
        s.spec_bytes().len() <= max ==> r@ == s@,
        s.spec_bytes().len() > max ==> r@ == decode_utf8(
            s.spec_bytes().take(if max >= 1 { max - 1 } else { 0 }),
        ) + "\u{2026}"@,
{
    let len = s.as_bytes().len();
    if len <= max {
        s.to_string()
    } else {
        let k = max.saturating_sub(1);
        let (head, _) = s.split_at(k);
        proof {
            encode_utf8_decode_utf8(head@);
            assert(head.spec_bytes() =~= s.spec_bytes().take(k as int));
            assert(head@ == decode_utf8(s.spec_bytes().take(k as int)));
        }
        let mut r = head.to_string();
        let ghost r0 = r@;
        r.append("\u{2026}");
        proof {
            assert(r0 == head@);
        }
        r
    }
}

/// Position of the last `/` in `p`, or -1 where there is none.
pub open spec fn last_slash(p: Seq<char>) -> int
    decreases p.len(),
{
    if p.len() == 0 {
        -1
    } else if p.last() == '/' {
        p.len() - 1
    } else {
        last_slash(p.drop_last())
    }
}

pub proof fn lemma_last_slash_range(p: Seq<char>)
    ensures
        -1 <= last_slash(p) < p.len(),
    decreases p.len(),
{
    if p.len() > 0 && p.last() != '/' {
        lemma_last_slash_range(p.drop_last());
    }
}

/// The file name of a path with `/` as separator, as `Path::file_name`
/// reads it: the last component that is neither empty nor `.`, unless it
/// is `..`; none for a path without such a component.
pub open spec fn file_name(p: Seq<char>) -> Option<Seq<char>>
    decreases p.len(),
{
    let i = last_slash(p);
    let seg = p.subrange(i + 1, p.len() as int);
    if seg.len() > 0 && seg != "."@ {
        if seg == ".."@ {
            None
        } else {
            Some(seg)
        }
    } else if i < 0 {
        None
    } else {
        proof {
            lemma_last_slash_range(p);
        }
        file_name(p.subrange(0, i))
    }
}

/// `last_slash` of the first `end` characters of `p`, where `i` follows
/// the last `/` before `end`.
proof fn lemma_last_slash_at(p: Seq<char>, i: int, end: int)
    requires
        0 <= i <= end <= p.len(),
        forall|j: int| i <= j < end ==> p[j] != '/',
        i == 0 || p[i - 1] == '/',
    ensures
        last_slash(p.subrange(0, end)) == i - 1,
    decreases end - i,
{
    let q = p.subrange(0, end);
    if end > i {
        assert(q.drop_last() =~= p.subrange(0, end - 1));
        lemma_last_slash_at(p, i, end - 1);
    } else if i > 0 {
        assert(q.last() == '/');
    } else {
        assert(q.len() == 0);
    }
}

fn file_name_of(path: &str) -> (name: Option<String>)
    ensures
        match name {
            Some(n) => file_name(path@) == Some(n@),
            None => file_name(path@) is None,
        },
{
    let chars = chars_of(path);
    let mut end: usize = chars.len();
    proof {
        assert(path@.subrange(0, end as int) =~= path@);
    }
    loop
        invariant
            end <= chars@.len(),
            chars@ == path@,
            file_name(path@) == file_name(path@.subrange(0, end as int)),
        decreases end,
    {
        let mut i: usize = end;
        while i > 0 && chars[i - 1] != '/'
            invariant
                i <= end <= chars@.len(),
                forall|j: int| i <= j < end ==> chars@[j] != '/',
            decreases i,
        {
            i -= 1;
        }
        let ghost q = path@.subrange(0, end as int);
        proof {
            lemma_last_slash_at(path@, i as int, end as int);
            assert(q.subrange(i as int, end as int) =~= path@.subrange(i as int, end as int));
            reveal_strlit(".");
            reveal_strlit("..");
        }
        let seg_len = end - i;
        let is_dot = seg_len == 1 && chars[i] == '.';
        proof {
            let seg = path@.subrange(i as int, end as int);
            assert("."@.len() == 1 && "."@[0] == '.');
            if seg_len == 1 {
                assert(seg[0] == chars@[i as int]);
                if is_dot {
                    assert(seg =~= "."@);
                } else {
                    assert(seg != "."@);
                }
            } else {
                assert(path@.subrange(i as int, end as int) != "."@);
            }
        }
        if seg_len > 0 && !is_dot {
            let is_dotdot = seg_len == 2 && chars[i] == '.' && chars[i + 1] == '.';
            proof {
                let seg = path@.subrange(i as int, end as int);
                assert(".."@.len() == 2 && ".."@[0] == '.' && ".."@[1] == '.');
                if seg_len == 2 {
                    assert(seg[0] == chars@[i as int] && seg[1] == chars@[i + 1]);
                    if is_dotdot {
                        assert(seg =~= ".."@);
                    } else {
                        assert(seg != ".."@);
                    }
                } else {
                    assert(path@.subrange(i as int, end as int) != ".."@);
                }
            }
            if is_dotdot {
                return None;
            }
            let seg = path.substring_char(i, end);
            return Some(seg.to_string());
        } else if i == 0 {
            return None;
        } else {
            proof {
                assert(q.subrange(0, i - 1) =~= path@.subrange(0, i - 1));
            }
            end = i - 1;
        }
    }
}

/// The file name of a path, or the whole path where it has none.
pub fn short_name(path: &str) -> (r: String)
    ensures
        r@ == match file_name(path@) {
            Some(n) => n,
            None => path@,
        },
{
    match file_name_of(path) {
        Some(n) => n,
        None => path.to_string(),
    }
}

/// How to render the results.
#[derive(Clone, Copy, PartialEq, Eq, Structural)]
pub enum Mode {
    /// Full per-image stat block.
    Detail,
    /// Per-category averages, one section per compressor.
    Average,
    /// Side-by-side tables.
    Compare,
}

/// The command line, once parsed.
pub struct Cli {
    pub targets: Vec<String>,
    pub compressors: Vec<String>,
    pub mode: Option<Mode>,
    pub csv: Option<String>,
}

/// The parsed command line as values: targets, compressor names, mode and
/// CSV path.
pub type CliModel = (Seq<Seq<char>>, Seq<Seq<char>>, Option<Mode>, Option<Seq<char>>);

impl View for Cli {
    type V = CliModel;

    open spec fn view(&self) -> CliModel {
        (
            self.targets@.map_values(|s: String| s@),
            self.compressors@.map_values(|s: String| s@),
            self.mode,
            match self.csv {
                Some(c) => Some(c@),
                None => None,
            },
        )
    }
}

/// What the arguments ask for.
pub enum Parsed {
    Usage,
    Run(Cli),
}

/// `list` joined with `sep` between elements.
pub open spec fn join(list: Seq<Seq<char>>, sep: Seq<char>) -> Seq<char>
    decreases list.len(),
{
    if list.len() == 0 {
        Seq::empty()
    } else if list.len() == 1 {
        list[0]
    } else {
        join(list.drop_last(), sep) + sep + list.last()
    }
}

/// Parsing the arguments from `i` on, with `cli` parsed so far. `Ok(None)`
/// asks for the usage text.
pub open spec fn parse_from(
    args: Seq<Seq<char>>,
    path_exists: Seq<bool>,
    i: int,
    cli: CliModel,
) -> Result<Option<CliModel>, Seq<char>>
    decreases args.len() - i,
{
    if i >= args.len() || i < 0 {
        Ok(Some(cli))
    } else {
        let a = args[i];
        let (targets, compressors, mode, csv) = cli;
        if a == "-h"@ || a == "--help"@ || a == "help"@ {
            Ok(None)
        } else if a == "image"@ {
            parse_from(args, path_exists, i + 1, (targets, compressors, Some(Mode::Detail), csv))
        } else if a == "average"@ || a == "avg"@ {
            parse_from(args, path_exists, i + 1, (targets, compressors, Some(Mode::Average), csv))
        } else if a == "compare"@ {
            parse_from(args, path_exists, i + 1, (targets, compressors, Some(Mode::Compare), csv))
        } else if a == "-c"@ || a == "--compressor"@ {
            if i + 1 < args.len() {
                parse_from(
                    args,
                    path_exists,
                    i + 2,
                    (targets, compressors + comma_parts(args[i + 1]), mode, csv),
                )
            } else {
                Err("--compressor needs a value"@)
            }
        } else if a == "--csv"@ {
            if i + 1 < args.len() {
                parse_from(args, path_exists, i + 2, (targets, compressors, mode, Some(args[i + 1])))
            } else {
                Err("--csv needs a value"@)
            }
        } else if a.len() > 0 && a[0] == '-' {
            Err("Unknown option '"@ + a + "'"@)
        } else if path_exists[i] {
            parse_from(args, path_exists, i + 1, (targets.push(a), compressors, mode, csv))
        } else if spec_is_compressor_spec(a) {
            parse_from(args, path_exists, i + 1, (targets, compressors + comma_parts(a), mode, csv))
        } else {
            Err("'"@ + a + "' is neither an existing path nor a known compressor. Known: "@ + join(
                known_names(),
                ", "@,
            ))
        }
    }
}

/// `names` of the compressors, joined with `, `.
fn joined_names() -> (s: String)
    ensures
        s@ == join(known_names(), ", "@),
{
    let names = compressor_names();
    let mut s = names[0].to_string();
    let mut i: usize = 1;
    proof {
        assert(known_names().take(1).len() == 1);
        assert(join(known_names().take(1), ", "@) == known_names()[0]);
    }
    while i < names.len()
        invariant
            1 <= i <= names@.len(),
            names@.map_values(|n: &str| n@) == known_names(),
            s@ == join(known_names().take(i as int), ", "@),
        decreases names@.len() - i,
    {
        s.append(", ");
        s.append(names[i]);
        proof {
            assert(known_names().take(i + 1).drop_last() =~= known_names().take(i as int));
            assert(known_names().take(i + 1).last() == names@[i as int]@);
        }
        i += 1;
    }
    proof {
        assert(known_names().take(4) =~= known_names());
    }
    s
}

fn push_parts(out: &mut Vec<String>, spec: &str)
    ensures
        final(out)@.map_values(|s: String| s@) == old(out)@.map_values(|s: String| s@) + comma_parts(spec@),
{
    let parts = comma_pieces(spec);
    let ghost start = out@.map_values(|s: String| s@);
    let mut i: usize = 0;
    while i < parts.len()
        invariant
            i <= parts@.len(),
            parts@.map_values(|p: String| p@) == comma_parts(spec@),
            out@.map_values(|s: String| s@) == start + comma_parts(spec@).take(i as int),
        decreases parts@.len() - i,
    {
        let ghost before = out@;
        let piece = parts[i].clone();
        proof {
            assert(parts@.map_values(|p: String| p@)[i as int] == parts@[i as int]@);
            assert(piece@ == comma_parts(spec@)[i as int]);
            assert(comma_parts(spec@).take(i + 1) =~= comma_parts(spec@).take(i as int).push(piece@));
        }
        out.push(piece);
        proof {
            assert(out@.map_values(|s: String| s@) =~= before.map_values(|s: String| s@).push(piece@));
            assert(out@.map_values(|s: String| s@) =~= start + comma_parts(spec@).take(i + 1));
        }
        i += 1;
    }
    proof {
        assert(comma_parts(spec@).take(parts@.len() as int) =~= comma_parts(spec@));
    }
}

/// Positional arguments classify themselves: an existing path is a target, a
/// known compressor name selects a compressor, and `image`/`average`/`compare`
/// force the output mode. Order does not matter, and both may repeat.
/// `path_exists[i]` tells whether `args[i]` names an existing path.
pub fn parse_args(args: &[String], path_exists: &[bool]) -> (res: Result<Parsed, String>)
    requires
        args@.len() == path_exists@.len(),
    ensures
        match parse_from(
            args@.map_values(|s: String| s@),
            path_exists@,
            0,
            (Seq::empty(), Seq::empty(), None, None),
        ) {
            Ok(None) => res matches Ok(Parsed::Usage),
            Ok(Some(m)) => res matches Ok(Parsed::Run(cli)) && cli@ == m,
            Err(e) => res matches Err(msg) && msg@ == e,
        },
{
    let ghost a = args@.map_values(|s: String| s@);
    let mut cli = Cli { targets: Vec::new(), compressors: Vec::new(), mode: None, csv: None };
    proof {
        assert(cli@ == (Seq::<Seq<char>>::empty(), Seq::<Seq<char>>::empty(), None::<Mode>, None::<Seq<char>>)) by {
            assert(cli.targets@.map_values(|s: String| s@) =~= Seq::<Seq<char>>::empty());
            assert(cli.compressors@.map_values(|s: String| s@) =~= Seq::<Seq<char>>::empty());
        }
    }
    let ghost goal = parse_from(a, path_exists@, 0, (Seq::empty(), Seq::empty(), None, None));
    let mut i: usize = 0;
    while i < args.len()
        invariant
            i <= args@.len(),
            args@.len() == path_exists@.len(),
            a == args@.map_values(|s: String| s@),
            goal == parse_from(a, path_exists@, i as int, cli@),
            goal == parse_from(a, path_exists@, 0, (Seq::empty(), Seq::empty(), None, None)),
        decreases args@.len() - i,
    {
        let arg = args[i].as_str();
        let c = chars_of(arg);
        assert(c@ == a[i as int]);
        let ghost (t0, c0, m0, v0) = cli@;
        if chars_eq(&c, &chars_of("-h")) || chars_eq(&c, &chars_of("--help")) || chars_eq(&c, &chars_of("help")) {
            proof {
                assert(a[i as int] == "-h"@ || a[i as int] == "--help"@ || a[i as int] == "help"@);
                assert(parse_from(a, path_exists@, i as int, cli@) == Ok::<Option<CliModel>, Seq<char>>(None));
            }
            return Ok(Parsed::Usage);
        } else if chars_eq(&c, &chars_of("image")) {
            cli.mode = Some(Mode::Detail);
        } else if chars_eq(&c, &chars_of("average")) || chars_eq(&c, &chars_of("avg")) {
            cli.mode = Some(Mode::Average);
        } else if chars_eq(&c, &chars_of("compare")) {
            cli.mode = Some(Mode::Compare);
        } else if chars_eq(&c, &chars_of("-c")) || chars_eq(&c, &chars_of("--compressor")) {
            if i + 1 >= args.len() {
                return Err("--compressor needs a value".to_string());
            }
            push_parts(&mut cli.compressors, args[i + 1].as_str());
            i += 1;
        } else if chars_eq(&c, &chars_of("--csv")) {
            if i + 1 >= args.len() {
                return Err("--csv needs a value".to_string());
            }
            cli.csv = Some(args[i + 1].clone());
            i += 1;
        } else if c.len() > 0 && c[0] == '-' {
            let mut e = "Unknown option '".to_string();
            e.append(arg);
            e.append("'");
            return Err(e);
        } else if path_exists[i] {
            let ghost before = cli.targets@;
            cli.targets.push(args[i].clone());
            proof {
                assert(cli.targets@.map_values(|s: String| s@) =~= before.map_values(|s: String| s@).push(a[i as int]));
            }
        } else if is_compressor_spec(arg) {
            push_parts(&mut cli.compressors, arg);
        } else {
            let mut e = "'".to_string();
            e.append(arg);
            e.append("' is neither an existing path nor a known compressor. Known: ");
            let known = joined_names();
            e.append(known.as_str());
            return Err(e);
        }
        i += 1;
    }
    Ok(Parsed::Run(cli))
}


/// The mode words are none of the help words and differ from each other.
proof fn lemma_mode_words_distinct()
    ensures
        "image"@ != "-h"@ && "image"@ != "--help"@ && "image"@ != "help"@,
        "average"@ != "-h"@ && "average"@ != "--help"@ && "average"@ != "help"@,
        "average"@ != "image"@,
        "avg"@ != "-h"@ && "avg"@ != "--help"@ && "avg"@ != "help"@,
        "avg"@ != "image"@ && "avg"@ != "average"@,
        "compare"@ != "-h"@ && "compare"@ != "--help"@ && "compare"@ != "help"@,
        "compare"@ != "image"@ && "compare"@ != "average"@ && "compare"@ != "avg"@,
{
    reveal_strlit("-h");
    reveal_strlit("--help");
    reveal_strlit("help");
    reveal_strlit("image");
    reveal_strlit("average");
    reveal_strlit("avg");
    reveal_strlit("compare");
    assert("-h"@.len() == 2);
    assert("--help"@.len() == 6);
    assert("help"@.len() == 4);
    assert("image"@.len() == 5);
    assert("average"@.len() == 7);
    assert("avg"@.len() == 3);
    assert("compare"@.len() == 7);
    assert("compare"@[0] != "average"@[0]);
}

/// Arguments that parse to the end parse the same way at the front of a
/// longer list: parsing goes on after them from what they gave.
proof fn lemma_parse_prefix(
    args: Seq<Seq<char>>,
    pe: Seq<bool>,
    tail: Seq<Seq<char>>,
    ptail: Seq<bool>,
    i: int,
    c: CliModel,
)
    requires
        0 <= i <= args.len(),
        args.len() == pe.len(),
        tail.len() == ptail.len(),
        parse_from(args, pe, i, c) matches Ok(Some(_)),
    ensures
        parse_from(args + tail, pe + ptail, i, c) == parse_from(
            args + tail,
            pe + ptail,
            args.len() as int,
            parse_from(args, pe, i, c)->Ok_0->Some_0,
        ),
    decreases args.len() - i,
{
    let w = args + tail;
    let p = pe + ptail;
    if i < args.len() {
        assert(w[i] == args[i]);
        assert(p[i] == pe[i]);
        let a = args[i];
        let (t, k, m, v) = c;
        if a == "-h"@ || a == "--help"@ || a == "help"@ {
        } else if a == "image"@ {
            lemma_parse_prefix(args, pe, tail, ptail, i + 1, (t, k, Some(Mode::Detail), v));
        } else if a == "average"@ || a == "avg"@ {
            lemma_parse_prefix(args, pe, tail, ptail, i + 1, (t, k, Some(Mode::Average), v));
        } else if a == "compare"@ {
            lemma_parse_prefix(args, pe, tail, ptail, i + 1, (t, k, Some(Mode::Compare), v));
        } else if a == "-c"@ || a == "--compressor"@ {
            assert(i + 1 < args.len());
            assert(w[i + 1] == args[i + 1]);
            lemma_parse_prefix(args, pe, tail, ptail, i + 2, (t, k + comma_parts(args[i + 1]), m, v));
        } else if a == "--csv"@ {
            assert(i + 1 < args.len());
            assert(w[i + 1] == args[i + 1]);
            lemma_parse_prefix(args, pe, tail, ptail, i + 2, (t, k, m, Some(args[i + 1])));
        } else if a.len() > 0 && a[0] == '-' {
        } else if pe[i] {
            lemma_parse_prefix(args, pe, tail, ptail, i + 1, (t.push(a), k, m, v));
        } else if spec_is_compressor_spec(a) {
            lemma_parse_prefix(args, pe, tail, ptail, i + 1, (t, k + comma_parts(a), m, v));
        }
    }
}

/// Parsing from `i` on reads only the arguments from `i` on.
proof fn lemma_parse_rest(w1: Seq<Seq<char>>, w2: Seq<Seq<char>>, p: Seq<bool>, i: int, c: CliModel)
    requires
        0 <= i,
        w1.len() == w2.len(),
        w1.len() == p.len(),
        forall|j: int| i <= j < w1.len() ==> w1[j] == w2[j],
    ensures
        parse_from(w1, p, i, c) == parse_from(w2, p, i, c),
    decreases w1.len() - i,
{
    if i < w1.len() {
        let a = w1[i];
        let (t, k, m, v) = c;
        if a == "-h"@ || a == "--help"@ || a == "help"@ {
        } else if a == "image"@ {
            lemma_parse_rest(w1, w2, p, i + 1, (t, k, Some(Mode::Detail), v));
        } else if a == "average"@ || a == "avg"@ {
            lemma_parse_rest(w1, w2, p, i + 1, (t, k, Some(Mode::Average), v));
        } else if a == "compare"@ {
            lemma_parse_rest(w1, w2, p, i + 1, (t, k, Some(Mode::Compare), v));
        } else if a == "-c"@ || a == "--compressor"@ {
            if i + 1 < w1.len() {
                lemma_parse_rest(w1, w2, p, i + 2, (t, k + comma_parts(w1[i + 1]), m, v));
            }
        } else if a == "--csv"@ {
            if i + 1 < w1.len() {
                lemma_parse_rest(w1, w2, p, i + 2, (t, k, m, Some(w1[i + 1])));
            }
        } else if a.len() > 0 && a[0] == '-' {
        } else if p[i] {
            lemma_parse_rest(w1, w2, p, i + 1, (t.push(a), k, m, v));
        } else if spec_is_compressor_spec(a) {
            lemma_parse_rest(w1, w2, p, i + 1, (t, k + comma_parts(a), m, v));
        }
    }
}

/// Parsing `pre`, one word and `post` reaches the word with what `pre`
/// parsed to.
proof fn lemma_parse_past_prefix(
    pre: Seq<Seq<char>>,
    pe_pre: Seq<bool>,
    x: Seq<char>,
    b: bool,
    post: Seq<Seq<char>>,
    pe_post: Seq<bool>,
)
    requires
        pre.len() == pe_pre.len(),
        post.len() == pe_post.len(),
        parse_from(pre, pe_pre, 0, (Seq::empty(), Seq::empty(), None, None)) matches Ok(Some(_)),
    ensures
        (pre.push(x) + post)[pre.len() as int] == x,
        parse_from(pre.push(x) + post, pe_pre.push(b) + pe_post, 0, (Seq::empty(), Seq::empty(), None, None))
            == parse_from(
            pre.push(x) + post,
            pe_pre.push(b) + pe_post,
            pre.len() as int,
            parse_from(pre, pe_pre, 0, (Seq::empty(), Seq::empty(), None, None))->Ok_0->Some_0,
        ),
{
    let args = pre.push(x) + post;
    assert(args =~= pre + (seq![x] + post));
    assert(pe_pre.push(b) + pe_post =~= pe_pre + (seq![b] + pe_post));
    lemma_parse_prefix(pre, pe_pre, seq![x] + post, seq![b] + pe_post, 0, (Seq::empty(), Seq::empty(), None, None));
}

/// A mode word among the arguments sets the output mode and changes
/// nothing else: after arguments `pre` that parse to `c`, the word `image`
/// selects the per-image detail view, `average` or `avg` the per-category
/// averages and `compare` the side-by-side tables, and parsing goes on after
/// the word with the targets, compressors and CSV path of `c`. Where the word
/// is the last argument, that is the result. The words `average` and `avg`
/// parse alike wherever they stand after such arguments.
pub proof fn lemma_mode_word(
    pre: Seq<Seq<char>>,
    pe_pre: Seq<bool>,
    w: Seq<char>,
    b: bool,
    post: Seq<Seq<char>>,
    pe_post: Seq<bool>,
)
    requires
        pre.len() == pe_pre.len(),
        post.len() == pe_post.len(),
        parse_from(pre, pe_pre, 0, (Seq::empty(), Seq::empty(), None, None)) matches Ok(Some(_)),
    ensures
        ({
            let c = parse_from(pre, pe_pre, 0, (Seq::empty(), Seq::empty(), None, None))->Ok_0->Some_0;
            let args = pre.push(w) + post;
            let pe = pe_pre.push(b) + pe_post;
            let start = (Seq::<Seq<char>>::empty(), Seq::<Seq<char>>::empty(), None::<Mode>, None::<Seq<char>>);
            let k: int = pre.len() as int + 1;
            &&& w == "image"@ ==> parse_from(args, pe, 0, start) == parse_from(args, pe, k, (c.0, c.1, Some(Mode::Detail), c.3))
            &&& w == "average"@ ==> parse_from(args, pe, 0, start) == parse_from(args, pe, k, (c.0, c.1, Some(Mode::Average), c.3))
            &&& w == "avg"@ ==> parse_from(args, pe, 0, start) == parse_from(args, pe, k, (c.0, c.1, Some(Mode::Average), c.3))
            &&& w == "compare"@ ==> parse_from(args, pe, 0, start) == parse_from(args, pe, k, (c.0, c.1, Some(Mode::Compare), c.3))
            &&& post.len() == 0 && w == "image"@ ==> parse_from(args, pe, 0, start) == Ok::<Option<CliModel>, Seq<char>>(Some((c.0, c.1, Some(Mode::Detail), c.3)))
            &&& post.len() == 0 && (w == "average"@ || w == "avg"@) ==> parse_from(args, pe, 0, start) == Ok::<Option<CliModel>, Seq<char>>(Some((c.0, c.1, Some(Mode::Average), c.3)))
            &&& post.len() == 0 && w == "compare"@ ==> parse_from(args, pe, 0, start) == Ok::<Option<CliModel>, Seq<char>>(Some((c.0, c.1, Some(Mode::Compare), c.3)))
            &&& parse_from(pre.push("average"@) + post, pe, 0, start) == parse_from(pre.push("avg"@) + post, pe, 0, start)
        }),
{
    let start = (Seq::<Seq<char>>::empty(), Seq::<Seq<char>>::empty(), None::<Mode>, None::<Seq<char>>);
    let c = parse_from(pre, pe_pre, 0, start)->Ok_0->Some_0;
    let pe = pe_pre.push(b) + pe_post;
    let k: int = pre.len() as int + 1;
    lemma_mode_words_distinct();
    lemma_parse_past_prefix(pre, pe_pre, w, b, post, pe_post);
    lemma_parse_past_prefix(pre, pe_pre, "average"@, b, post, pe_post);
    lemma_parse_past_prefix(pre, pe_pre, "avg"@, b, post, pe_post);
    let a1 = pre.push("average"@) + post;
    let a2 = pre.push("avg"@) + post;
    let cm = (c.0, c.1, Some(Mode::Average), c.3);
    assert(parse_from(a1, pe, pre.len() as int, c) == parse_from(a1, pe, k, cm));
    assert(parse_from(a2, pe, pre.len() as int, c) == parse_from(a2, pe, k, cm));
    assert forall|j: int| k <= j < a1.len() implies a1[j] == a2[j] by {
        assert(a1[j] == post[j - k]);
        assert(a2[j] == post[j - k]);
    }
    lemma_parse_rest(a1, a2, pe, k, cm);
}

} // verus!
