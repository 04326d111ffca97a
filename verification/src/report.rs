//! The decisions of a benchmark run: which compressors, which output
//! mode, the progress bar, and the grouping of images by category.
use crate::runner::{Mode, join};
use vstd::prelude::*;

verus! {

/// The compressor selection a run asks for: `all` when none was named, else
/// the names joined with commas.
pub fn run_spec(compressors: &Vec<String>) -> (spec: String)
    ensures
        spec@ == if compressors@.len() == 0 {
            "all"@
        } else {
            join(compressors@.map_values(|s: String| s@), ","@)
        },
{
    let ghost names = compressors@.map_values(|s: String| s@);
    if compressors.len() == 0 {
        return "all".to_string();
    }
    let mut spec = compressors[0].clone();
    proof {
        assert(names.take(1).drop_last() =~= Seq::<Seq<char>>::empty());
        assert(join(names.take(1), ","@) == names[0]);
    }
    let mut i: usize = 1;
    while i < compressors.len()
        invariant
            1 <= i <= compressors@.len(),
            names == compressors@.map_values(|s: String| s@),
            spec@ == join(names.take(i as int), ","@),
        decreases compressors@.len() - i,
    {
        spec.append(",");
        spec.append(compressors[i].as_str());
        proof {
            assert(names.take(i + 1).drop_last() =~= names.take(i as int));
            assert(names.take(i + 1).last() == compressors@[i as int]@);
        }
        i += 1;
    }
    proof {
        assert(names.take(compressors@.len() as int) =~= names);
    }
    spec
}

/// The name of the bundled image library, the default target.
pub open spec fn default_image_dir() -> Seq<char> {
    "images"@
}

/// The targets of a run: those given, or, when none is given, the bundled
/// image library if it exists; else the error that says so.
pub fn plan_targets(targets: &Vec<String>, default_exists: bool) -> (r: Result<Vec<String>, String>)
    ensures
        targets@.len() > 0 ==> (r matches Ok(t) && t@.map_values(|s: String| s@) == targets@.map_values(
            |s: String| s@,
        )),
        targets@.len() == 0 && default_exists ==> (r matches Ok(t) && t@.map_values(|s: String| s@)
            == seq![default_image_dir()]),
        targets@.len() == 0 && !default_exists ==> (r matches Err(e) && e@
            == "No image path given and default 'images' does not exist"@),
{
    if targets.len() == 0 {
        if default_exists {
            let d = "images".to_string();
            let v = vec![d];
            proof {
                assert(v@.map_values(|s: String| s@) =~= seq![default_image_dir()]);
            }
            return Ok(v);
        }
        return Err("No image path given and default 'images' does not exist".to_string());
    }
    let mut out: Vec<String> = Vec::new();
    let mut i: usize = 0;
    while i < targets.len()
        invariant
            i <= targets@.len(),
            out@.map_values(|s: String| s@) == targets@.map_values(|s: String| s@).take(i as int),
        decreases targets@.len() - i,
    {
        let ghost before = out@;
        out.push(targets[i].clone());
        proof {
            assert(out@.map_values(|s: String| s@) =~= before.map_values(|s: String| s@).push(targets@[i as int]@));
            assert(targets@.map_values(|s: String| s@).take(i + 1) =~= targets@.map_values(|s: String| s@).take(
                i as int,
            ).push(targets@[i as int]@));
        }
        i += 1;
    }
    proof {
        assert(targets@.map_values(|s: String| s@).take(i as int) =~= targets@.map_values(|s: String| s@));
    }
    Ok(out)
}

/// The error of a run that found no image in its targets.
pub fn no_images_message(targets: &Vec<String>) -> (m: String)
    ensures
        m@ == "No images found in "@ + join(targets@.map_values(|s: String| s@), ", "@),
{
    let ghost names = targets@.map_values(|s: String| s@);
    let mut m = "No images found in ".to_string();
    let ghost head = m@;
    if targets.len() == 0 {
        proof {
            assert(m@ =~= "No images found in "@ + join(names, ", "@));
        }
        return m;
    }
    m.append(targets[0].as_str());
    proof {
        assert(names.take(1).drop_last() =~= Seq::<Seq<char>>::empty());
        assert(join(names.take(1), ", "@) == names[0]);
    }
    let mut i: usize = 1;
    while i < targets.len()
        invariant
            1 <= i <= targets@.len(),
            names == targets@.map_values(|s: String| s@),
            head == "No images found in "@,
            m@ == head + join(names.take(i as int), ", "@),
        decreases targets@.len() - i,
    {
        m.append(", ");
        m.append(targets[i].as_str());
        proof {
            assert(names.take(i + 1).drop_last() =~= names.take(i as int));
            assert(names.take(i + 1).last() == targets@[i as int]@);
            assert(m@ =~= head + join(names.take(i + 1), ", "@));
        }
        i += 1;
    }
    proof {
        assert(names.take(targets@.len() as int) =~= names);
    }
    m
}

/// The output mode of a run: the one forced on the command line, else the
/// detail view for a single image, averages for a single compressor, and
/// the side-by-side tables otherwise.
pub fn infer_mode(forced: Option<Mode>, n_images: usize, n_compressors: usize) -> (m: Mode)
    ensures
        m == match forced {
            Some(f) => f,
            None => if n_images == 1 {
                Mode::Detail
            } else if n_compressors == 1 {
                Mode::Average
            } else {
                Mode::Compare
            },
        },
{
    match forced {
        Some(f) => f,
        None => if n_images == 1 {
            Mode::Detail
        } else if n_compressors == 1 {
            Mode::Average
        } else {
            Mode::Compare
        },
    }
}

/// A run draws a progress bar when it has more than one image and
/// compressor pair to try.
pub fn shows_progress(n_images: usize, n_compressors: usize) -> (b: bool)
    ensures
        b == (n_images * n_compressors > 1),
{
    if n_images == 0 || n_compressors == 0 {
        proof {
            assert(n_images * n_compressors == 0) by (nonlinear_arith)
                requires
                    n_images == 0 || n_compressors == 0,
            ;
        }
        false
    } else if n_images == 1 && n_compressors == 1 {
        false
    } else {
        proof {
            assert(n_images * n_compressors > 1) by (nonlinear_arith)
                requires
                    n_images >= 1,
                    n_compressors >= 1,
                    n_images > 1 || n_compressors > 1,
            ;
        }
        true
    }
}

/// Width in cells of the progress bar.
pub const PROGRESS_WIDTH: usize = 30;

/// The filled cells of the progress bar and the percentage shown beside it,
/// after `done` of `total` items; an empty run counts as complete.
pub fn progress_bar(done: usize, total: usize) -> (r: (usize, usize))
    requires
        done * 100 <= usize::MAX,
        total == 0 || (done * PROGRESS_WIDTH) as int / total as int <= PROGRESS_WIDTH,
    ensures
        r.0 == if total == 0 { PROGRESS_WIDTH as int } else { (done * PROGRESS_WIDTH) as int / total as int },
        r.1 == if total == 0 { 100 } else { (done * 100) as int / total as int },
        r.0 <= PROGRESS_WIDTH,
{
    if total == 0 {
        (PROGRESS_WIDTH, 100)
    } else {
        proof {
            assert(done * 30 <= done * 100) by (nonlinear_arith);
        }
        (done * PROGRESS_WIDTH / total, done * 100 / total)
    }
}

/// Groups of image indices that share a category, as category name and
/// member indices.
pub type Groups = Seq<(Seq<char>, Seq<usize>)>;

/// Index of the first group, from `j` on, whose name is `cat`.
pub open spec fn find_group(groups: Groups, cat: Seq<char>, j: int) -> Option<int>
    decreases groups.len() - j,
{
    if j < 0 || j >= groups.len() {
        None
    } else if groups[j].0 == cat {
        Some(j)
    } else {
        find_group(groups, cat, j + 1)
    }
}

/// The groups of the first `n` images, whose categories are `cats`: each
/// image joins the group of its category, or opens a new group at the end.
pub open spec fn grouped(cats: Seq<Seq<char>>, n: nat) -> Groups
    decreases n,
{
    if n == 0 {
        Seq::empty()
    } else {
        let g = grouped(cats, (n - 1) as nat);
        let cat = cats[n - 1];
        let idx = (n - 1) as usize;
        match find_group(g, cat, 0) {
            Some(j) => g.update(j, (g[j].0, g[j].1.push(idx))),
            None => g.push((cat, seq![idx])),
        }
    }
}

/// The groups as values: each name by its characters.
pub open spec fn groups_view(gs: Seq<(String, Vec<usize>)>) -> Groups {
    gs.map_values(|g: (String, Vec<usize>)| (g.0@, g.1@))
}

proof fn lemma_find_group(groups: Groups, cat: Seq<char>, j: int)
    requires
        0 <= j <= groups.len(),
    ensures
        find_group(groups, cat, j) matches Some(k) ==> j <= k < groups.len() && groups[k].0 == cat,
        find_group(groups, cat, j) is None ==> forall|k: int| j <= k < groups.len() ==> groups[k].0 != cat,
    decreases groups.len() - j,
{
    if j < groups.len() && groups[j].0 != cat {
        lemma_find_group(groups, cat, j + 1);
    }
}

/// Grouping splits the images by category: the group names differ from one
/// another; each group is non-empty and lists, in increasing order, images of
/// its category; every image lies in the group of its category; and the
/// groups come in the order in which their categories are first seen.
pub proof fn lemma_grouped_partition(cats: Seq<Seq<char>>, n: nat)
    requires
        n <= cats.len(),
        n <= usize::MAX + 1,
    ensures
        forall|j: int, k: int|
            0 <= j < k < grouped(cats, n).len() ==> grouped(cats, n)[j].0 != grouped(cats, n)[k].0,
        forall|j: int|
            0 <= j < grouped(cats, n).len() ==> (#[trigger] grouped(cats, n)[j]).1.len() > 0,
        forall|j: int, a: int|
            0 <= j < grouped(cats, n).len() && 0 <= a < grouped(cats, n)[j].1.len() ==> {
                let m = #[trigger] grouped(cats, n)[j].1[a];
                m < n && cats[m as int] == grouped(cats, n)[j].0
            },
        forall|j: int, a: int, b: int|
            0 <= j < grouped(cats, n).len() && 0 <= a < b < grouped(cats, n)[j].1.len()
                ==> #[trigger] grouped(cats, n)[j].1[a] < #[trigger] grouped(cats, n)[j].1[b],
        forall|i: int|
            #![trigger cats[i]]
            0 <= i < n ==> exists|j: int|
                0 <= j < grouped(cats, n).len() && grouped(cats, n)[j].0 == cats[i]
                    && (#[trigger] grouped(cats, n)[j]).1.contains(i as usize),
        forall|j: int, k: int|
            0 <= j < k < grouped(cats, n).len() ==> (#[trigger] grouped(cats, n)[j]).1[0]
                < (#[trigger] grouped(cats, n)[k]).1[0],
    decreases n,
{
    if n > 0 {
        let p = (n - 1) as nat;
        lemma_grouped_partition(cats, p);
        let g = grouped(cats, p);
        let cat = cats[p as int];
        let idx = p as usize;
        lemma_find_group(g, cat, 0);
        let h = grouped(cats, n);
        match find_group(g, cat, 0) {
            Some(jj) => {
                assert(h == g.update(jj, (g[jj].0, g[jj].1.push(idx))));
                assert forall|i: int| #![trigger cats[i]] 0 <= i < n implies exists|j: int|
                    0 <= j < h.len() && h[j].0 == cats[i] && (#[trigger] h[j]).1.contains(i as usize) by {
                    if i == p {
                        assert(h[jj].1[h[jj].1.len() - 1] == idx);
                    } else {
                        let j = choose|j: int|
                            0 <= j < g.len() && g[j].0 == cats[i] && (#[trigger] g[j]).1.contains(i as usize);
                        let a = choose|a: int| 0 <= a < g[j].1.len() && g[j].1[a] == i as usize;
                        assert(h[j].1[a] == i as usize);
                    }
                }
            },
            None => {
                assert(h == g.push((cat, seq![idx])));
                assert forall|i: int| #![trigger cats[i]] 0 <= i < n implies exists|j: int|
                    0 <= j < h.len() && h[j].0 == cats[i] && (#[trigger] h[j]).1.contains(i as usize) by {
                    if i == p {
                        assert(h[g.len() as int].1[0] == idx);
                    } else {
                        let j = choose|j: int|
                            0 <= j < g.len() && g[j].0 == cats[i] && (#[trigger] g[j]).1.contains(i as usize);
                        let a = choose|a: int| 0 <= a < g[j].1.len() && g[j].1[a] == i as usize;
                        assert(h[j].1[a] == i as usize);
                    }
                }
            },
        }
    }
}

/// Images bucketed by category, in first-seen order; `cats[i]` is the
/// category of image `i`, and each group lists its images in order.
pub fn group_by_category(cats: &Vec<String>) -> (groups: Vec<(String, Vec<usize>)>)
    ensures
        groups_view(groups@) == grouped(cats@.map_values(|s: String| s@), cats@.len()),
{
    let ghost cs = cats@.map_values(|s: String| s@);
    let mut groups: Vec<(String, Vec<usize>)> = Vec::new();
    let mut i: usize = 0;
    proof {
        assert(groups_view(groups@) =~= Seq::<(Seq<char>, Seq<usize>)>::empty());
    }
    while i < cats.len()
        invariant
            i <= cats@.len(),
            cs == cats@.map_values(|s: String| s@),
            groups_view(groups@) == grouped(cs, i as nat),
        decreases cats@.len() - i,
    {
        let ghost gv = groups_view(groups@);
        let cat = &cats[i];
        assert(cat@ == cs[i as int]);
        let mut j: usize = 0;
        let mut found = false;
        while j < groups.len()
            invariant_except_break
                !found,
            invariant
                j <= groups@.len(),
                gv == groups_view(groups@),
                find_group(gv, cat@, 0) == find_group(gv, cat@, j as int),
            ensures
                found ==> j < groups@.len() && gv[j as int].0 == cat@,
                !found ==> j == groups@.len(),
                find_group(gv, cat@, 0) == find_group(gv, cat@, j as int),
            decreases groups@.len() - j,
        {
            assert(gv[j as int].0 == groups@[j as int].0@);
            if groups[j].0 == *cat {
                found = true;
                break;
            }
            j += 1;
        }
        if found {
            proof {
                assert(find_group(gv, cat@, 0) == Some(j as int));
            }
            let ghost before = groups@;
            let mut g = groups.remove(j);
            g.1.push(i);
            groups.insert(j, g);
            proof {
                let expect = gv.update(j as int, (gv[j as int].0, gv[j as int].1.push(i)));
                assert(groups@ =~= before.update(j as int, groups@[j as int]));
                assert(groups_view(groups@) =~= expect);
            }
        } else {
            proof {
                assert(find_group(gv, cat@, groups@.len() as int) is None);
            }
            let ghost before = groups@;
            let name = cat.clone();
            let members = vec![i];
            assert(members@ =~= seq![i]);
            groups.push((name, members));
            proof {
                assert(groups@ =~= before.push(groups@.last()));
                assert(groups_view(groups@) =~= gv.push((cs[i as int], seq![i])));
            }
        }
        i += 1;
    }
    groups
}

} // verus!
