//! Why the order of the runner's arguments does not matter.
use crate::runner::{CliModel, Mode, join, known_names, parse_from, spec_is_compressor_spec};
use crate::text::comma_parts;
use vstd::multiset::Multiset;
use vstd::prelude::*;
use vstd::seq_lib::{lemma_multiset_commutative, to_multiset_build};

verus! {

/// One argument unit: an option that takes a value together with its value,
/// or a single word; each word with whether it names an existing path.
pub type ArgUnit = (Seq<Seq<char>>, Seq<bool>);

/// The options that take the next argument as their value.
pub open spec fn takes_value(a: Seq<char>) -> bool {
    a == "-c"@ || a == "--compressor"@ || a == "--csv"@
}

/// `u` is a whole unit.
pub open spec fn unit_ok(u: ArgUnit) -> bool {
    &&& u.0.len() == u.1.len()
    &&& (u.0.len() == 2 && takes_value(u.0[0])) || (u.0.len() == 1 && !takes_value(u.0[0]))
}

/// The words of the units, one after the other.
pub open spec fn flat_words(us: Seq<ArgUnit>) -> Seq<Seq<char>>
    decreases us.len(),
{
    if us.len() == 0 {
        Seq::empty()
    } else {
        us[0].0 + flat_words(us.drop_first())
    }
}

/// Whether the words of the units name existing paths, one after the other.
pub open spec fn flat_exists(us: Seq<ArgUnit>) -> Seq<bool>
    decreases us.len(),
{
    if us.len() == 0 {
        Seq::empty()
    } else {
        us[0].1 + flat_exists(us.drop_first())
    }
}

/// Parsing one unit from `cli`: its first word decides, as in
/// `parse_from`.
pub open spec fn apply_unit(u: ArgUnit, cli: CliModel) -> Result<Option<CliModel>, Seq<char>> {
    let a = u.0[0];
    let (targets, compressors, mode, csv) = cli;
    if a == "-h"@ || a == "--help"@ || a == "help"@ {
        Ok(None)
    } else if a == "image"@ {
        Ok(Some((targets, compressors, Some(Mode::Detail), csv)))
    } else if a == "average"@ || a == "avg"@ {
        Ok(Some((targets, compressors, Some(Mode::Average), csv)))
    } else if a == "compare"@ {
        Ok(Some((targets, compressors, Some(Mode::Compare), csv)))
    } else if a == "-c"@ || a == "--compressor"@ {
        if u.0.len() > 1 {
            Ok(Some((targets, compressors + comma_parts(u.0[1]), mode, csv)))
        } else {
            Err("--compressor needs a value"@)
        }
    } else if a == "--csv"@ {
        if u.0.len() > 1 {
            Ok(Some((targets, compressors, mode, Some(u.0[1]))))
        } else {
            Err("--csv needs a value"@)
        }
    } else if a.len() > 0 && a[0] == '-' {
        Err("Unknown option '"@ + a + "'"@)
    } else if u.1[0] {
        Ok(Some((targets.push(a), compressors, mode, csv)))
    } else if spec_is_compressor_spec(a) {
        Ok(Some((targets, compressors + comma_parts(a), mode, csv)))
    } else {
        Err("'"@ + a + "' is neither an existing path nor a known compressor. Known: "@ + join(
            known_names(),
            ", "@,
        ))
    }
}

/// Parsing the units one after the other from `cli`.
pub open spec fn parse_units(us: Seq<ArgUnit>, cli: CliModel) -> Result<Option<CliModel>, Seq<char>>
    decreases us.len(),
{
    if us.len() == 0 {
        Ok(Some(cli))
    } else {
        match apply_unit(us[0], cli) {
            Ok(Some(c)) => parse_units(us.drop_first(), c),
            r => r,
        }
    }
}

/// What a parsed command line holds, order aside: the targets and the
/// compressor names as multisets, the mode and the CSV path.
pub open spec fn content(c: CliModel) -> (Multiset<Seq<char>>, Multiset<Seq<char>>, Option<Mode>, Option<Seq<char>>) {
    (c.0.to_multiset(), c.1.to_multiset(), c.2, c.3)
}

/// The unit is a mode word.
pub open spec fn sets_mode(u: ArgUnit) -> bool {
    u.0.len() == 1 && (u.0[0] == "image"@ || u.0[0] == "average"@ || u.0[0] == "avg"@ || u.0[0] == "compare"@)
}

/// The unit sets the CSV path.
pub open spec fn sets_csv(u: ArgUnit) -> bool {
    u.0.len() == 2 && u.0[0] == "--csv"@
}

proof fn lemma_literals()
    ensures
        "-c"@ != "--compressor"@,
        "-c"@ != "--csv"@,
        "--compressor"@ != "--csv"@,
        "-c"@.len() > 0 && "-c"@[0] == '-',
        "--compressor"@.len() > 0 && "--compressor"@[0] == '-',
        "--csv"@.len() > 0 && "--csv"@[0] == '-',
{
    reveal_strlit("-c");
    assert("-c"@.len() == 2);
    reveal_strlit("--compressor");
    reveal_strlit("--csv");
    assert("--compressor"@.len() == 12);
    assert("--csv"@.len() == 5);
}

/// The options that take a value are no other word that the parser knows.
proof fn lemma_value_options_distinct(a: Seq<char>)
    requires
        takes_value(a),
    ensures
        a != "-h"@,
        a != "--help"@,
        a != "help"@,
        a != "image"@,
        a != "average"@,
        a != "avg"@,
        a != "compare"@,
{
    reveal_strlit("-c");
    reveal_strlit("--compressor");
    reveal_strlit("--csv");
    reveal_strlit("-h");
    reveal_strlit("--help");
    reveal_strlit("help");
    reveal_strlit("image");
    reveal_strlit("average");
    reveal_strlit("avg");
    reveal_strlit("compare");
    if a == "-c"@ {
        assert(a[1] != "-h"@[1]);
        assert(a.len() != "--help"@.len());
        assert(a.len() != "help"@.len());
        assert(a.len() != "image"@.len());
        assert(a.len() != "average"@.len());
        assert(a.len() != "avg"@.len());
        assert(a.len() != "compare"@.len());
    } else if a == "--compressor"@ {
        assert(a.len() != "-h"@.len());
        assert(a.len() != "--help"@.len());
        assert(a.len() != "help"@.len());
        assert(a.len() != "image"@.len());
        assert(a.len() != "average"@.len());
        assert(a.len() != "avg"@.len());
        assert(a.len() != "compare"@.len());
    } else {
        assert(a.len() != "-h"@.len());
        assert(a.len() != "--help"@.len());
        assert(a.len() != "help"@.len());
        assert(a[0] != "image"@[0]);
        assert(a.len() != "average"@.len());
        assert(a.len() != "avg"@.len());
        assert(a.len() != "compare"@.len());
    }
}

/// Parsing a unit inside a longer argument list is parsing the unit,
/// then going on after it.
proof fn lemma_unit_step(w: Seq<Seq<char>>, p: Seq<bool>, i: int, u: ArgUnit, c: CliModel)
    requires
        unit_ok(u),
        0 <= i,
        i + u.0.len() <= w.len(),
        w.len() == p.len(),
        w.subrange(i, i + u.0.len()) == u.0,
        p.subrange(i, i + u.1.len()) == u.1,
    ensures
        parse_from(w, p, i, c) == match apply_unit(u, c) {
            Ok(Some(c2)) => parse_from(w, p, i + u.0.len(), c2),
            r => r,
        },
{
    lemma_literals();
    assert(w[i] == u.0[0]);
    assert(p[i] == u.1[0]);
    assert(i < w.len());
    let a = u.0[0];
    if u.0.len() == 2 {
        assert(w[i + 1] == u.0[1]);
        assert(i + 1 < w.len());
        lemma_value_options_distinct(a);
        if a == "-c"@ || a == "--compressor"@ {
            assert(parse_from(w, p, i, c) == parse_from(w, p, i + 2, (c.0, c.1 + comma_parts(u.0[1]), c.2, c.3)));
        } else {
            assert(a == "--csv"@);
            assert(parse_from(w, p, i, c) == parse_from(w, p, i + 2, (c.0, c.1, c.2, Some(u.0[1]))));
        }
    } else {
        assert(!takes_value(a));
    }
}

/// Parsing an argument list made of units parses the units one by one.
pub proof fn lemma_parse_units(us: Seq<ArgUnit>, w: Seq<Seq<char>>, p: Seq<bool>, i: int, c: CliModel)
    requires
        forall|k: int| 0 <= k < us.len() ==> unit_ok(#[trigger] us[k]),
        0 <= i <= w.len(),
        w.len() == p.len(),
        w.skip(i) == flat_words(us),
        p.skip(i) == flat_exists(us),
    ensures
        parse_from(w, p, i, c) == parse_units(us, c),
    decreases us.len(),
{
    if us.len() == 0 {
        assert(w.skip(i).len() == 0);
    } else {
        let u = us[0];
        assert(unit_ok(u));
        let k = u.0.len() as int;
        let rest = us.drop_first();
        assert(flat_words(us) == u.0 + flat_words(rest));
        assert(flat_exists(us) == u.1 + flat_exists(rest));
        assert(w.subrange(i, i + k) =~= u.0) by {
            assert forall|j: int| 0 <= j < k implies w.subrange(i, i + k)[j] == u.0[j] by {
                assert(w.skip(i)[j] == w[i + j]);
            }
        }
        assert(p.subrange(i, i + k) =~= u.1) by {
            assert forall|j: int| 0 <= j < k implies p.subrange(i, i + k)[j] == u.1[j] by {
                assert(p.skip(i)[j] == p[i + j]);
            }
        }
        lemma_unit_step(w, p, i, u, c);
        assert(w.skip(i + k) =~= flat_words(rest)) by {
            assert forall|j: int| 0 <= j < w.len() - (i + k) implies w.skip(i + k)[j] == flat_words(rest)[j] by {
                assert(w.skip(i)[k + j] == w[i + k + j]);
            }
        }
        assert(p.skip(i + k) =~= flat_exists(rest)) by {
            assert forall|j: int| 0 <= j < p.len() - (i + k) implies p.skip(i + k)[j] == flat_exists(rest)[j] by {
                assert(p.skip(i)[k + j] == p[i + k + j]);
            }
        }
        assert forall|j: int| 0 <= j < rest.len() implies unit_ok(#[trigger] rest[j]) by {
            assert(rest[j] == us[j + 1]);
        }
        match apply_unit(u, c) {
            Ok(Some(c2)) => {
                lemma_parse_units(rest, w, p, i + k, c2);
            },
            _ => {},
        }
    }
}

/// Parsing one unit does to the content what it does whatever the order of
/// what came before; whether it succeeds does not depend on what came
/// before.
proof fn lemma_unit_content(u: ArgUnit, c1: CliModel, c2: CliModel)
    requires
        unit_ok(u),
        content(c1) == content(c2),
    ensures
        match (apply_unit(u, c1), apply_unit(u, c2)) {
            (Ok(Some(d1)), Ok(Some(d2))) => content(d1) == content(d2),
            (Ok(None), Ok(None)) => true,
            (Err(e1), Err(e2)) => e1 == e2,
            _ => false,
        },
{
    lemma_literals();
    let w = u.0;
    if w.len() == 2 {
        if w[0] == "-c"@ || w[0] == "--compressor"@ {
            lemma_multiset_commutative(c1.1, comma_parts(w[1]));
            lemma_multiset_commutative(c2.1, comma_parts(w[1]));
        }
    } else {
        to_multiset_build(c1.0, w[0]);
        to_multiset_build(c2.0, w[0]);
        lemma_multiset_commutative(c1.1, comma_parts(w[0]));
        lemma_multiset_commutative(c2.1, comma_parts(w[0]));
    }
}

proof fn lemma_parse_units_content(us: Seq<ArgUnit>, c1: CliModel, c2: CliModel)
    requires
        forall|k: int| 0 <= k < us.len() ==> unit_ok(#[trigger] us[k]),
        content(c1) == content(c2),
    ensures
        match (parse_units(us, c1), parse_units(us, c2)) {
            (Ok(Some(d1)), Ok(Some(d2))) => content(d1) == content(d2),
            (Ok(None), Ok(None)) => true,
            (Err(e1), Err(e2)) => e1 == e2,
            _ => false,
        },
    decreases us.len(),
{
    if us.len() > 0 {
        assert(unit_ok(us[0]));
        lemma_unit_content(us[0], c1, c2);
        let rest = us.drop_first();
        assert forall|j: int| 0 <= j < rest.len() implies unit_ok(#[trigger] rest[j]) by {
            assert(rest[j] == us[j + 1]);
        }
        match (apply_unit(us[0], c1), apply_unit(us[0], c2)) {
            (Ok(Some(d1)), Ok(Some(d2))) => {
                lemma_parse_units_content(rest, d1, d2);
            },
            _ => {},
        }
    }
}

/// The command line of no arguments.
pub open spec fn empty_cli() -> CliModel {
    (Seq::empty(), Seq::empty(), None, None)
}

/// A unit adds to a command line what it adds to an empty one: its target
/// and compressor names at the end, and its mode or CSV path, if any; and
/// whether it is accepted does not depend on what came before.
proof fn lemma_unit_shape(u: ArgUnit, c: CliModel)
    requires
        unit_ok(u),
    ensures
        (apply_unit(u, c) matches Ok(Some(_))) == (apply_unit(u, empty_cli()) matches Ok(Some(_))),
        apply_unit(u, c) matches Ok(Some(d)) ==> {
            let e = apply_unit(u, empty_cli())->Ok_0->Some_0;
            &&& d.0 == c.0 + e.0
            &&& d.1 == c.1 + e.1
            &&& d.2 == if e.2 is Some { e.2 } else { c.2 }
            &&& d.3 == if e.3 is Some { e.3 } else { c.3 }
            &&& e.2 is Some <==> sets_mode(u)
            &&& e.3 is Some <==> sets_csv(u)
        },
{
    lemma_literals();
    let a = u.0[0];
    assert(c.0 + Seq::<Seq<char>>::empty() =~= c.0);
    assert(c.1 + Seq::<Seq<char>>::empty() =~= c.1);
    assert(c.0.push(a) =~= c.0 + Seq::<Seq<char>>::empty().push(a));
    if u.0.len() == 2 {
        lemma_value_options_distinct(a);
        assert(Seq::<Seq<char>>::empty() + comma_parts(u.0[1]) =~= comma_parts(u.0[1]));
    } else {
        assert(Seq::<Seq<char>>::empty() + comma_parts(a) =~= comma_parts(a));
        reveal_strlit("image");
        reveal_strlit("average");
        reveal_strlit("avg");
        reveal_strlit("compare");
        reveal_strlit("--csv");
        assert("--csv"@.len() == 5);
    }
}

/// Two units that do not both set the mode or both set the CSV path can
/// be parsed in either order with the same content.
proof fn lemma_units_commute(u: ArgUnit, v: ArgUnit, c: CliModel)
    requires
        unit_ok(u),
        unit_ok(v),
        !(sets_mode(u) && sets_mode(v)),
        !(sets_csv(u) && sets_csv(v)),
        parse_units(seq![u, v], c) is Ok,
        parse_units(seq![u, v], c)->Ok_0 is Some,
    ensures
        parse_units(seq![v, u], c) matches Ok(Some(d2)) && content(parse_units(seq![u, v], c)->Ok_0->Some_0)
            == content(d2),
{
    reveal_with_fuel(parse_units, 3);
    let uv = seq![u, v];
    let vu = seq![v, u];
    assert(uv[0] == u && uv.drop_first() =~= seq![v]);
    assert(vu[0] == v && vu.drop_first() =~= seq![u]);
    assert(seq![v].drop_first() =~= Seq::<ArgUnit>::empty());
    assert(seq![u].drop_first() =~= Seq::<ArgUnit>::empty());
    lemma_unit_shape(u, c);
    lemma_unit_shape(v, c);
    let c1 = apply_unit(u, c)->Ok_0->Some_0;
    lemma_unit_shape(v, c1);
    let c2 = apply_unit(v, c1)->Ok_0->Some_0;
    let c1v = apply_unit(v, c)->Ok_0->Some_0;
    lemma_unit_shape(u, c1v);
    let c2v = apply_unit(u, c1v)->Ok_0->Some_0;
    let eu = apply_unit(u, empty_cli())->Ok_0->Some_0;
    let ev = apply_unit(v, empty_cli())->Ok_0->Some_0;
    assert(c2.0 == c.0 + eu.0 + ev.0);
    assert(c2v.0 == c.0 + ev.0 + eu.0);
    lemma_multiset_commutative(c.0 + eu.0, ev.0);
    lemma_multiset_commutative(c.0, eu.0);
    lemma_multiset_commutative(c.0 + ev.0, eu.0);
    lemma_multiset_commutative(c.0, ev.0);
    lemma_multiset_commutative(c.1 + eu.1, ev.1);
    lemma_multiset_commutative(c.1, eu.1);
    lemma_multiset_commutative(c.1 + ev.1, eu.1);
    lemma_multiset_commutative(c.1, ev.1);
    assert(c2.0.to_multiset() =~= c2v.0.to_multiset());
    assert(c2.1.to_multiset() =~= c2v.1.to_multiset());
}

proof fn lemma_parse_units_append(a: Seq<ArgUnit>, b: Seq<ArgUnit>, c: CliModel)
    ensures
        parse_units(a + b, c) == match parse_units(a, c) {
            Ok(Some(c2)) => parse_units(b, c2),
            r => r,
        },
    decreases a.len(),
{
    if a.len() == 0 {
        assert(a + b =~= b);
    } else {
        assert((a + b)[0] == a[0]);
        assert((a + b).drop_first() =~= a.drop_first() + b);
        match apply_unit(a[0], c) {
            Ok(Some(c1)) => {
                lemma_parse_units_append(a.drop_first(), b, c1);
            },
            _ => {},
        }
    }
}

/// Order does not matter: on a command line made of units, swapping two
/// neighbouring units, which do not both set the mode or both set the CSV
/// path, parses to the same mode and CSV path and to the same targets and
/// compressor names in another order. (`parse_args` parses the arguments as
/// `parse_from` from the start with nothing parsed; by such swaps, any
/// reordering of the units is reached.)
pub proof fn lemma_parse_order(pre: Seq<ArgUnit>, u: ArgUnit, v: ArgUnit, post: Seq<ArgUnit>)
    requires
        forall|k: int| 0 <= k < pre.len() ==> unit_ok(#[trigger] pre[k]),
        forall|k: int| 0 <= k < post.len() ==> unit_ok(#[trigger] post[k]),
        unit_ok(u),
        unit_ok(v),
        !(sets_mode(u) && sets_mode(v)),
        !(sets_csv(u) && sets_csv(v)),
        parse_from(
            flat_words(pre + seq![u, v] + post),
            flat_exists(pre + seq![u, v] + post),
            0,
            empty_cli(),
        ) is Ok,
        parse_from(
            flat_words(pre + seq![u, v] + post),
            flat_exists(pre + seq![u, v] + post),
            0,
            empty_cli(),
        )->Ok_0 is Some,
    ensures
        parse_from(flat_words(pre + seq![v, u] + post), flat_exists(pre + seq![v, u] + post), 0, empty_cli())
            matches Ok(Some(d2)) && content(
            parse_from(
                flat_words(pre + seq![u, v] + post),
                flat_exists(pre + seq![u, v] + post),
                0,
                empty_cli(),
            )->Ok_0->Some_0,
        ) == content(d2),
{
    let us1 = pre + seq![u, v] + post;
    let us2 = pre + seq![v, u] + post;
    assert forall|k: int| 0 <= k < us1.len() implies unit_ok(#[trigger] us1[k]) by {
        if k < pre.len() {
            assert(us1[k] == pre[k]);
        } else if k >= pre.len() + 2 {
            assert(us1[k] == post[k - pre.len() - 2]);
        }
    }
    assert forall|k: int| 0 <= k < us2.len() implies unit_ok(#[trigger] us2[k]) by {
        if k < pre.len() {
            assert(us2[k] == pre[k]);
        } else if k >= pre.len() + 2 {
            assert(us2[k] == post[k - pre.len() - 2]);
        }
    }
    lemma_flat_len(us1);
    lemma_flat_len(us2);
    assert(flat_words(us1).skip(0) =~= flat_words(us1));
    assert(flat_exists(us1).skip(0) =~= flat_exists(us1));
    assert(flat_words(us2).skip(0) =~= flat_words(us2));
    assert(flat_exists(us2).skip(0) =~= flat_exists(us2));
    lemma_parse_units(us1, flat_words(us1), flat_exists(us1), 0, empty_cli());
    lemma_parse_units(us2, flat_words(us2), flat_exists(us2), 0, empty_cli());
    assert(us1 =~= pre + (seq![u, v] + post));
    assert(us2 =~= pre + (seq![v, u] + post));
    lemma_parse_units_append(pre, seq![u, v] + post, empty_cli());
    lemma_parse_units_append(pre, seq![v, u] + post, empty_cli());
    let c = parse_units(pre, empty_cli())->Ok_0->Some_0;
    lemma_parse_units_append(seq![u, v], post, c);
    lemma_parse_units_append(seq![v, u], post, c);
    lemma_units_commute(u, v, c);
    let x1 = parse_units(seq![u, v], c)->Ok_0->Some_0;
    let x2 = parse_units(seq![v, u], c)->Ok_0->Some_0;
    lemma_parse_units_content(post, x1, x2);
}

/// The words and the path answers of units are as many.
proof fn lemma_flat_len(us: Seq<ArgUnit>)
    requires
        forall|k: int| 0 <= k < us.len() ==> unit_ok(#[trigger] us[k]),
    ensures
        flat_words(us).len() == flat_exists(us).len(),
    decreases us.len(),
{
    if us.len() > 0 {
        assert(unit_ok(us[0]));
        let rest = us.drop_first();
        assert forall|j: int| 0 <= j < rest.len() implies unit_ok(#[trigger] rest[j]) by {
            assert(rest[j] == us[j + 1]);
        }
        lemma_flat_len(rest);
    }
}

/// What a unit adds to an empty command line.
pub open spec fn unit_effect(u: ArgUnit) -> CliModel {
    apply_unit(u, empty_cli())->Ok_0->Some_0
}

/// The unit is accepted.
pub open spec fn accepted(u: ArgUnit) -> bool {
    apply_unit(u, empty_cli()) matches Ok(Some(_))
}

/// The multiset sum of `f` over the units.
pub open spec fn msum<A>(us: Seq<ArgUnit>, f: spec_fn(ArgUnit) -> Multiset<A>) -> Multiset<A>
    decreases us.len(),
{
    if us.len() == 0 {
        Multiset::empty()
    } else {
        f(us[0]).add(msum(us.drop_first(), f))
    }
}

/// The targets that a unit adds.
pub open spec fn unit_targets(u: ArgUnit) -> Multiset<Seq<char>> {
    unit_effect(u).0.to_multiset()
}

/// The compressor names that a unit adds.
pub open spec fn unit_compressors(u: ArgUnit) -> Multiset<Seq<char>> {
    unit_effect(u).1.to_multiset()
}

/// The mode that a unit sets, if any.
pub open spec fn unit_modes(u: ArgUnit) -> Multiset<Mode> {
    match unit_effect(u).2 {
        Some(m) => Multiset::singleton(m),
        None => Multiset::empty(),
    }
}

/// The CSV path that a unit sets, if any.
pub open spec fn unit_csvs(u: ArgUnit) -> Multiset<Seq<char>> {
    match unit_effect(u).3 {
        Some(v) => Multiset::singleton(v),
        None => Multiset::empty(),
    }
}

/// The only element of a multiset of one element, or `None` for an empty
/// one.
pub open spec fn sole<A>(m: Multiset<A>) -> Option<A> {
    if m.len() == 0 {
        None
    } else {
        Some(m.choose())
    }
}

proof fn lemma_msum_remove<A>(us: Seq<ArgUnit>, f: spec_fn(ArgUnit) -> Multiset<A>, j: int)
    requires
        0 <= j < us.len(),
    ensures
        msum(us, f) == f(us[j]).add(msum(us.remove(j), f)),
    decreases us.len(),
{
    broadcast use vstd::multiset::group_multiset_axioms;
    if j == 0 {
        assert(us.remove(0) =~= us.drop_first());
    } else {
        let rest = us.drop_first();
        lemma_msum_remove(rest, f, j - 1);
        assert(us.remove(j).drop_first() =~= rest.remove(j - 1));
        assert(us.remove(j)[0] == us[0]);
        assert(msum(us, f) =~= f(us[j]).add(msum(us.remove(j), f)));
    }
}

/// A multiset sum over units does not depend on their order.
proof fn lemma_msum_perm<A>(us1: Seq<ArgUnit>, us2: Seq<ArgUnit>, f: spec_fn(ArgUnit) -> Multiset<A>)
    requires
        us1.to_multiset() == us2.to_multiset(),
    ensures
        msum(us1, f) == msum(us2, f),
    decreases us1.len(),
{
    broadcast use vstd::seq_lib::group_to_multiset_ensures;
    broadcast use vstd::multiset::group_multiset_axioms;
    if us1.len() == 0 {
        assert(us1.to_multiset().len() == 0);
        assert(us2.to_multiset().len() == us2.len());
    } else {
        let x = us1[0];
        assert(us1.to_multiset().contains(x));
        assert(us2.contains(x));
        let j = choose|j: int| 0 <= j < us2.len() && us2[j] == x;
        assert(us1.remove(0) =~= us1.drop_first());
        assert(us1.drop_first().to_multiset() == us2.remove(j).to_multiset());
        lemma_msum_perm(us1.drop_first(), us2.remove(j), f);
        lemma_msum_remove(us2, f, j);
    }
}

/// Parsing units from `cli` succeeds exactly when every unit is accepted,
/// and then adds up their targets and compressor names and takes the one
/// mode and the one CSV path that they set, if any.
proof fn lemma_parse_units_sum(us: Seq<ArgUnit>, c: CliModel)
    requires
        forall|k: int| 0 <= k < us.len() ==> unit_ok(#[trigger] us[k]),
        msum(us, |u: ArgUnit| unit_modes(u)).len() <= 1,
        msum(us, |u: ArgUnit| unit_csvs(u)).len() <= 1,
    ensures
        (parse_units(us, c) matches Ok(Some(_))) == forall|k: int| 0 <= k < us.len() ==> accepted(#[trigger] us[k]),
        parse_units(us, c) matches Ok(Some(d)) ==> content(d) == (
            c.0.to_multiset().add(msum(us, |u: ArgUnit| unit_targets(u))),
            c.1.to_multiset().add(msum(us, |u: ArgUnit| unit_compressors(u))),
            if msum(us, |u: ArgUnit| unit_modes(u)).len() == 0 { c.2 } else { sole(msum(us, |u: ArgUnit| unit_modes(u))) },
            if msum(us, |u: ArgUnit| unit_csvs(u)).len() == 0 { c.3 } else { sole(msum(us, |u: ArgUnit| unit_csvs(u))) },
        ),
    decreases us.len(),
{
    broadcast use vstd::multiset::group_multiset_axioms;
    if us.len() == 0 {
        assert(c.0.to_multiset().add(Multiset::empty()) =~= c.0.to_multiset());
        assert(c.1.to_multiset().add(Multiset::empty()) =~= c.1.to_multiset());
    } else {
        let u = us[0];
        let rest = us.drop_first();
        assert(unit_ok(u));
        assert forall|j: int| 0 <= j < rest.len() implies unit_ok(#[trigger] rest[j]) by {
            assert(rest[j] == us[j + 1]);
        }
        lemma_unit_shape(u, c);
        let fm = |x: ArgUnit| unit_modes(x);
        let fc = |x: ArgUnit| unit_csvs(x);
        let ft = |x: ArgUnit| unit_targets(x);
        let fp = |x: ArgUnit| unit_compressors(x);
        assert(msum(us, fm) == unit_modes(u).add(msum(rest, fm)));
        assert(msum(us, fc) == unit_csvs(u).add(msum(rest, fc)));
        assert(msum(us, ft) == unit_targets(u).add(msum(rest, ft)));
        assert(msum(us, fp) == unit_compressors(u).add(msum(rest, fp)));
        if accepted(u) {
            let c1 = apply_unit(u, c)->Ok_0->Some_0;
            lemma_parse_units_sum(rest, c1);
            let e = unit_effect(u);
            lemma_multiset_commutative(c.0, e.0);
            lemma_multiset_commutative(c.1, e.1);
            match parse_units(rest, c1) {
                Ok(Some(d)) => {
                    assert forall|k: int| 0 <= k < us.len() implies accepted(#[trigger] us[k]) by {
                        if k > 0 {
                            assert(us[k] == rest[k - 1]);
                        }
                    }
                    assert(d.0.to_multiset() =~= c.0.to_multiset().add(msum(us, ft)));
                    assert(d.1.to_multiset() =~= c.1.to_multiset().add(msum(us, fp)));
                    match e.2 {
                        Some(m) => {
                            assert(msum(rest, fm).len() == 0);
                            assert(msum(us, fm) =~= Multiset::singleton(m));
                            assert(Multiset::singleton(m).contains(Multiset::singleton(m).choose()));
                        },
                        None => {
                            assert(msum(us, fm) =~= msum(rest, fm));
                        },
                    }
                    match e.3 {
                        Some(v) => {
                            assert(msum(rest, fc).len() == 0);
                            assert(msum(us, fc) =~= Multiset::singleton(v));
                            assert(Multiset::singleton(v).contains(Multiset::singleton(v).choose()));
                        },
                        None => {
                            assert(msum(us, fc) =~= msum(rest, fc));
                        },
                    }
                },
                _ => {
                    let k = choose|k: int| 0 <= k < rest.len() && !accepted(#[trigger] rest[k]);
                    assert(us[k + 1] == rest[k]);
                },
            }
        } else {
            assert(!accepted(us[0]));
        }
    }
}

/// Any reordering of the argument units parses to the same mode and CSV
/// path and to the same targets and compressor names in another order,
/// where at most one unit sets the mode and at most one the CSV path.
/// (`parse_args` parses its arguments as `parse_from` from the start with
/// nothing parsed.)
pub proof fn lemma_parse_permutation(us1: Seq<ArgUnit>, us2: Seq<ArgUnit>)
    requires
        forall|k: int| 0 <= k < us1.len() ==> unit_ok(#[trigger] us1[k]),
        us1.to_multiset() == us2.to_multiset(),
        msum(us1, |u: ArgUnit| unit_modes(u)).len() <= 1,
        msum(us1, |u: ArgUnit| unit_csvs(u)).len() <= 1,
        parse_from(flat_words(us1), flat_exists(us1), 0, empty_cli()) is Ok,
        parse_from(flat_words(us1), flat_exists(us1), 0, empty_cli())->Ok_0 is Some,
    ensures
        parse_from(flat_words(us2), flat_exists(us2), 0, empty_cli()) matches Ok(Some(d2)) && content(
            parse_from(flat_words(us1), flat_exists(us1), 0, empty_cli())->Ok_0->Some_0,
        ) == content(d2),
{
    broadcast use vstd::seq_lib::group_to_multiset_ensures;
    assert forall|k: int| 0 <= k < us2.len() implies unit_ok(#[trigger] us2[k]) by {
        assert(us2.to_multiset().contains(us2[k]));
        assert(us1.contains(us2[k]));
    }
    let fm = |x: ArgUnit| unit_modes(x);
    let fc = |x: ArgUnit| unit_csvs(x);
    let ft = |x: ArgUnit| unit_targets(x);
    let fp = |x: ArgUnit| unit_compressors(x);
    lemma_msum_perm(us1, us2, fm);
    lemma_msum_perm(us1, us2, fc);
    lemma_msum_perm(us1, us2, ft);
    lemma_msum_perm(us1, us2, fp);
    lemma_flat_len(us1);
    lemma_flat_len(us2);
    assert(flat_words(us1).skip(0) =~= flat_words(us1));
    assert(flat_exists(us1).skip(0) =~= flat_exists(us1));
    assert(flat_words(us2).skip(0) =~= flat_words(us2));
    assert(flat_exists(us2).skip(0) =~= flat_exists(us2));
    lemma_parse_units(us1, flat_words(us1), flat_exists(us1), 0, empty_cli());
    lemma_parse_units(us2, flat_words(us2), flat_exists(us2), 0, empty_cli());
    lemma_parse_units_sum(us1, empty_cli());
    lemma_parse_units_sum(us2, empty_cli());
    assert forall|k: int| 0 <= k < us2.len() implies accepted(#[trigger] us2[k]) by {
        assert(us2.to_multiset().contains(us2[k]));
        assert(us1.contains(us2[k]));
        let j = choose|j: int| 0 <= j < us1.len() && us1[j] == us2[k];
        assert(accepted(us1[j]));
    }
}

} // verus!
