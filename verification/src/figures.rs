//! The page that gathers the figures, and the order of groups and bars in them.

use crate::bytes::{bytes_equal, key_seqs, to_owned};
use crate::text::{behind_prefix, first_at, same_text, split_at_byte, split_bytes, strip};
use vstd::prelude::*;
use vstd::string::StringExecFns;

verus! {

/// The head of the page, up to its main part.
pub const PAGE_HEAD: &'static str = "<!doctype html><meta charset=utf8><title>Supdb figures</title><style>:root{--bg:#f6f7fa;--fg:#151a24;--fg2:#525d74;--card:#fff;--rule:#d9dde8}@media(prefers-color-scheme:dark){:root{--bg:#0d1017;--fg:#e3e8f2;--fg2:#9aa5bc;--card:#141924;--rule:#28303f}}body{margin:0;background:var(--bg);color:var(--fg);font:15px/1.6 'IBM Plex Sans',system-ui,sans-serif;padding:40px 24px}main{max-width:900px;margin:0 auto;display:flex;flex-direction:column;gap:28px}h1{font-size:26px;margin:0}p.sub{color:var(--fg2);margin:0}figure{margin:0;background:var(--card);border:1px solid var(--rule);border-radius:6px;padding:18px;overflow-x:auto}figcaption{font-size:12.5px;color:var(--fg2);margin-top:8px}img{max-width:100%;height:auto;display:block}</style><main>";

/// The heading, naming the profile twice, and whether the figures may be cited.
pub open spec fn heading(profile: Seq<char>) -> Seq<char> {
    "<div><h1>Supdb internal benchmarks</h1><p class=sub>Figures generated from <code>results/*."@
        + profile + ".json</code>. Profile <strong>"@ + profile + "</strong>"@ + (if profile
        == "full"@ {
        ""@
    } else {
        " &mdash; not citable evidence"@
    }) + ".</p></div>"@
}

/// One figure with its caption.
pub open spec fn figure(name: Seq<char>, title: Seq<char>) -> Seq<char> {
    "<figure><img src=\""@ + name + ".svg\" alt=\""@ + title + "\"><figcaption>"@ + title
        + "</figcaption></figure>"@
}

/// The figures, one after the other.
pub open spec fn figures(made: Seq<(String, String)>) -> Seq<char>
    decreases made.len(),
{
    if made.len() == 0 {
        Seq::empty()
    } else {
        figures(made.drop_last()) + figure(made.last().0@, made.last().1@)
    }
}

/// The whole page.
pub open spec fn page(made: Seq<(String, String)>, profile: Seq<char>) -> Seq<char> {
    PAGE_HEAD@ + heading(profile) + figures(made) + "</main>"@
}

fn heading_text(profile: &str) -> (s: String)
    ensures
        s@ == heading(profile@),
{
    let mut s: String = "<div><h1>Supdb internal benchmarks</h1><p class=sub>Figures generated from <code>results/*.".to_owned();
    s.append(profile);
    s.append(".json</code>. Profile <strong>");
    s.append(profile);
    s.append("</strong>");
    s.append(
        if same_text(profile, "full") {
            ""
        } else {
            " &mdash; not citable evidence"
        },
    );
    s.append(".</p></div>");
    s
}

fn figure_text(name: &str, title: &str) -> (s: String)
    ensures
        s@ == figure(name@, title@),
{
    let mut s: String = "<figure><img src=\"".to_owned();
    s.append(name);
    s.append(".svg\" alt=\"");
    s.append(title);
    s.append("\"><figcaption>");
    s.append(title);
    s.append("</figcaption></figure>");
    s
}

/// The page that gathers the figures that were made.
pub fn index_html(made: &[(String, String)], profile: &str) -> (s: String)
    ensures
        s@ == page(made@, profile@),
{
    let mut s: String = PAGE_HEAD.to_owned();
    s.append(heading_text(profile).as_str());
    let ghost front = s@;
    let mut i: usize = 0;
    proof {
        assert(made@.take(0) =~= Seq::<(String, String)>::empty());
        assert(s@ =~= front + figures(made@.take(0)));
    }
    while i < made.len()
        invariant
            i <= made@.len(),
            s@ == front + figures(made@.take(i as int)),
        decreases made.len() - i,
    {
        let ghost before = s@;
        proof {
            assert(made@.take(i + 1).drop_last() =~= made@.take(i as int));
            assert(made@.take(i + 1).last() == made@[i as int]);
        }
        let one: String = figure_text(made[i].0.as_str(), made[i].1.as_str());
        s.append(one.as_str());
        proof {
            assert(s@ =~= front + figures(made@.take(i + 1)));
        }
        i = i + 1;
    }
    proof {
        assert(made@.take(i as int) =~= made@);
    }
    s.append("</main>");
    s
}

// ------------------------------------------------------------------ groups --

/// What is named, in the order of first naming.
pub open spec fn first_named(names: Seq<Seq<u8>>) -> Seq<Seq<u8>>
    decreases names.len(),
{
    if names.len() == 0 {
        Seq::empty()
    } else {
        let front = first_named(names.drop_last());
        if front.contains(names.last()) {
            front
        } else {
            front.push(names.last())
        }
    }
}

/// What is named, in the order of first naming.
pub fn first_seen(names: &Vec<Vec<u8>>) -> (out: Vec<Vec<u8>>)
    ensures
        key_seqs(out@) == first_named(key_seqs(names@)),
{
    let mut out: Vec<Vec<u8>> = Vec::new();
    let ghost all = key_seqs(names@);
    let mut i: usize = 0;
    proof {
        assert(all.take(0) =~= Seq::<Seq<u8>>::empty());
        assert(key_seqs(out@) =~= first_named(all.take(0)));
    }
    while i < names.len()
        invariant
            i <= names@.len(),
            all == key_seqs(names@),
            key_seqs(out@) == first_named(all.take(i as int)),
        decreases names.len() - i,
    {
        let ghost before = key_seqs(out@);
        proof {
            assert(all.take(i + 1).drop_last() =~= all.take(i as int));
            assert(all.take(i + 1).last() == names@[i as int]@);
        }
        let mut known: bool = false;
        let mut j: usize = 0;
        while j < out.len() && !known
            invariant
                j <= out@.len(),
                i < names@.len(),
                before == key_seqs(out@),
                known ==> before.contains(names@[i as int]@),
                !known ==> forall|k: int| 0 <= k < j ==> before[k] != names@[i as int]@,
            decreases out.len() - j,
        {
            assert(before[j as int] == out@[j as int]@);
            if bytes_equal(&out[j], &names[i]) {
                known = true;
            }
            j = j + 1;
        }
        if !known {
            proof {
                assert(!before.contains(names@[i as int]@));
            }
            out.push(to_owned(&names[i]));
            proof {
                assert(key_seqs(out@) =~= before.push(names@[i as int]@));
            }
        }
        i = i + 1;
    }
    proof {
        assert(all.take(i as int) =~= all);
    }
    out
}

/// Everything that is named is listed, and once only.
pub proof fn lemma_first_named(names: Seq<Seq<u8>>, n: Seq<u8>)
    ensures
        first_named(names).contains(n) <==> names.contains(n),
        first_named(names).no_duplicates(),
    decreases names.len(),
{
    if names.len() > 0 {
        let t = names.drop_last();
        lemma_first_named(t, n);
        lemma_first_named(t, names.last());
        let front = first_named(t);
        let all = first_named(names);
        if names.contains(n) {
            let i = choose|i: int| 0 <= i < names.len() && names[i] == n;
            if i < t.len() {
                assert(t[i] == n);
                let k = choose|k: int| 0 <= k < front.len() && front[k] == n;
                assert(all[k] == n);
            } else if !front.contains(n) {
                assert(all[front.len() as int] == n);
            }
        }
        if all.contains(n) {
            let k = choose|k: int| 0 <= k < all.len() && all[k] == n;
            if k < front.len() {
                assert(front[k] == n);
                let i = choose|i: int| 0 <= i < t.len() && t[i] == n;
                assert(names[i] == n);
            } else {
                assert(names[names.len() - 1] == n);
            }
        }
    }
}

/// The letter of a workload: what stands before the first hyphen.
pub open spec fn short_of(w: Seq<u8>) -> Seq<u8> {
    w.take(first_at(w, 45) as int)
}

/// The letter of a workload: what stands before the first hyphen.
pub fn short_name(w: &[u8]) -> (s: Vec<u8>)
    ensures
        s@ == short_of(w@),
{
    let pieces: Vec<Vec<u8>> = split_bytes(w, 45);
    proof {
        crate::text::lemma_first_at_is(w@, 45);
        let p = first_at(w@, 45) as int;
        assert(split_at_byte(w@, 45).len() >= 1);
        assert(split_at_byte(w@, 45)[0] =~= w@.take(p));
        assert(key_seqs(pieces@).len() == pieces@.len());
        assert(key_seqs(pieces@)[0] == pieces@[0]@);
    }
    to_owned(&pieces[0])
}

/// One measured row: the engine and the workload, as far as it names them.
pub struct FigureRow {
    /// The engine.
    pub engine: Option<Vec<u8>>,
    /// The workload.
    pub workload: Option<Vec<u8>>,
}

/// Whether a row is an engine's in a group.
pub open spec fn row_matches(r: FigureRow, engine: Seq<u8>, group: Seq<u8>) -> bool {
    &&& r.engine is Some && r.engine->0@ == engine
    &&& r.workload is Some && behind_prefix(r.workload->0@, group) is Some
}

/// The row of an engine in a group: the first that matches.
pub fn find_row(rows: &Vec<FigureRow>, engine: &[u8], group: &[u8]) -> (r: Option<usize>)
    ensures
        r is Some <==> exists|i: int|
            0 <= i < rows@.len() && row_matches(#[trigger] rows@[i], engine@, group@),
        r matches Some(k) ==> {
            &&& k < rows@.len()
            &&& row_matches(rows@[k as int], engine@, group@)
            &&& forall|i: int| 0 <= i < k ==> !row_matches(#[trigger] rows@[i], engine@, group@)
        },
{
    let mut i: usize = 0;
    while i < rows.len()
        invariant
            i <= rows@.len(),
            forall|j: int| 0 <= j < i ==> !row_matches(#[trigger] rows@[j], engine@, group@),
        decreases rows.len() - i,
    {
        match (&rows[i].engine, &rows[i].workload) {
            (Some(e), Some(w)) => {
                if bytes_equal(e, engine) {
                    match strip(w, group) {
                        Some(_) => {
                            return Some(i);
                        },
                        None => {},
                    }
                }
            },
            _ => {},
        }
        assert(!row_matches(rows@[i as int], engine@, group@));
        i = i + 1;
    }
    None
}

/// The names come in the order in which they are first met: what is met in the front part
/// of a list stands in front.
pub proof fn lemma_first_named_in_order(names: Seq<Seq<u8>>, k: int)
    requires
        0 <= k <= names.len(),
    ensures
        first_named(names.take(k)).len() <= first_named(names).len(),
        first_named(names).take(first_named(names.take(k)).len() as int) == first_named(
            names.take(k),
        ),
    decreases names.len(),
{
    if k < names.len() {
        let t = names.drop_last();
        lemma_first_named_in_order(t, k);
        assert(t.take(k) =~= names.take(k));
        let n = first_named(names.take(k)).len() as int;
        assert(first_named(names).take(n) =~= first_named(t).take(n));
    } else {
        assert(names.take(k) =~= names);
        assert(first_named(names).take(first_named(names).len() as int) =~= first_named(names));
    }
}

/// The short form of a name is what stands in front of its first dash, or the name where
/// it has none.
pub proof fn lemma_short_ends_at_dash(w: Seq<u8>)
    ensures
        short_of(w).len() <= w.len(),
        short_of(w) == w.take(short_of(w).len() as int),
        forall|i: int| 0 <= i < short_of(w).len() ==> #[trigger] short_of(w)[i] != 45,
        short_of(w).len() < w.len() ==> w[short_of(w).len() as int] == 45,
{
    crate::text::lemma_first_at_is(w, 45);
}

/// The figures of two lists stand one behind the other, and one figure has its name in the
/// place of its picture and its title twice.
pub proof fn lemma_figures_stand_in_order(a: Seq<(String, String)>, b: Seq<(String, String)>)
    ensures
        figures(a + b) == figures(a) + figures(b),
        a.len() == 1 ==> figures(a) == "<figure><img src=\""@ + a[0].0@ + ".svg\" alt=\""@ + a[0].1@
            + "\"><figcaption>"@ + a[0].1@ + "</figcaption></figure>"@,
    decreases b.len(),
{
    reveal_with_fuel(figures, 2);
    if a.len() == 1 {
        assert(figures(a.drop_last()) =~= Seq::<char>::empty());
        assert(figures(a) =~= figure(a[0].0@, a[0].1@));
    }
    if b.len() == 0 {
        assert(a + b =~= a);
        assert(figures(a) + figures(b) =~= figures(a));
    } else {
        let t = b.drop_last();
        lemma_figures_stand_in_order(a, t);
        assert((a + b).drop_last() =~= a + t);
        let f = figure(b.last().0@, b.last().1@);
        assert(figures(a + t) + f =~= figures(a) + (figures(t) + f));
    }
}

/// A row is an engine's in a group if both are named in it and the workload starts with the
/// group.
pub proof fn lemma_row_matches_both(r: FigureRow, engine: Seq<u8>, group: Seq<u8>)
    ensures
        row_matches(r, engine, group) ==> r.engine is Some && r.workload is Some && r.engine->0@
            == engine && group.len() <= r.workload->0@.len() && r.workload->0@.take(
            group.len() as int,
        ) == group,
        r.engine is None || r.workload is None ==> !row_matches(r, engine, group),
        r.engine is Some && r.engine->0@ != engine ==> !row_matches(r, engine, group),
        r.engine is Some && r.engine->0@ == engine && r.workload is Some && group.len()
            <= r.workload->0@.len() && r.workload->0@.take(group.len() as int) == group
            ==> row_matches(r, engine, group),
{
}

} // verus!
