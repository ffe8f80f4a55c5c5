//! Which of a directory's walked files are formatted, and in what order. The
//! `--include` globs (by default `*.lp`) whitelist, the `--exclude` and
//! `--extend-exclude` globs veto, all matched by `ignore`'s override matcher
//! rooted at the searched directory; the selected paths come out sorted by
//! `Path` order. The walk itself, with its `.gitignore` handling, is the
//! binary's.

use super::args::Cli;
use vstd::prelude::*;
use vstd::string::StringExecFns;

verus! {

/// The text of the error `ignore` gives when the override glob `glob`, rooted at
/// `root`, does not parse; `None` when it parses.
pub uninterp spec fn glob_error_spec(root: Seq<char>, glob: Seq<char>) -> Option<Seq<char>>;

/// `ignore::overrides::OverrideBuilder::add` of one glob on a fresh builder
/// rooted at `root`: the error's text when the glob does not parse. Whether a
/// glob parses, and the error text, depend on the glob alone.
#[verifier::external_body]
fn glob_error(root: &str, glob: &str) -> (r: Option<String>)
    ensures
        match r {
            Some(e) => glob_error_spec(root@, glob@) == Some(e@),
            None => glob_error_spec(root@, glob@) is None,
        },
{
    let mut ob = ignore::overrides::OverrideBuilder::new(root);
    match ob.add(glob) {
        Ok(_) => None,
        Err(e) => Some(e.to_string()),
    }
}

/// The text of the error `ignore` gives when the override matcher rooted at
/// `root` with the globs `globs` (in order) cannot be built; `None` when it can.
pub uninterp spec fn glob_build_error_spec(root: Seq<char>, globs: Seq<Seq<char>>) -> Option<Seq<char>>;

/// `ignore::overrides::OverrideBuilder::build` after adding `globs` in order
/// to a builder rooted at `root`: the error's text when the matcher cannot be
/// built. A function of the root and the globs.
#[verifier::external_body]
fn glob_build_error(root: &str, globs: &Vec<String>) -> (r: Option<String>)
    ensures
        match r {
            Some(e) => glob_build_error_spec(root@, strings_view(globs@)) == Some(e@),
            None => glob_build_error_spec(root@, strings_view(globs@)) is None,
        },
{
    let mut ob = ignore::overrides::OverrideBuilder::new(root);
    for g in globs.iter() {
        let _ = ob.add(g);
    }
    match ob.build() {
        Ok(_) => None,
        Err(e) => Some(e.to_string()),
    }
}

/// Whether the override matcher rooted at `root` with the globs `globs` (in
/// order) whitelists the file `path`.
pub uninterp spec fn glob_selects_spec(root: Seq<char>, globs: Seq<Seq<char>>, path: Seq<char>) -> bool;

/// `ignore::overrides::Override::matched(path, false).is_whitelist()` on the
/// matcher built from `globs` rooted at `root` (`false` if it cannot be built).
/// Override matching is a function of the root, the globs and the path.
#[verifier::external_body]
fn glob_selects(root: &str, globs: &Vec<String>, path: &str) -> (r: bool)
    ensures
        r == glob_selects_spec(root@, strings_view(globs@), path@),
{
    let mut ob = ignore::overrides::OverrideBuilder::new(root);
    for g in globs.iter() {
        let _ = ob.add(g);
    }
    match ob.build() {
        Ok(ov) => ov.matched(path, false).is_whitelist(),
        Err(_) => false,
    }
}

/// `std::path::Path`'s order of the paths `a` and `b`: `-1`, `0` or `1`.
pub uninterp spec fn path_order_spec(a: Seq<char>, b: Seq<char>) -> i8;

/// `Ord::cmp` of `Path::new(a)` and `Path::new(b)` as a sign. `Ord` is a total
/// order, so swapping the paths flips the sign and a path is equal to itself.
#[verifier::external_body]
fn path_order(a: &str, b: &str) -> (r: i8)
    ensures
        r == path_order_spec(a@, b@),
        -1 <= r <= 1,
        path_order_spec(b@, a@) == -r,
        a@ == b@ ==> r == 0,
{
    match std::path::Path::new(a).cmp(std::path::Path::new(b)) {
        std::cmp::Ordering::Less => -1,
        std::cmp::Ordering::Equal => 0,
        std::cmp::Ordering::Greater => 1,
    }
}

/// The texts of a list of strings.
pub open spec fn strings_view(s: Seq<String>) -> Seq<Seq<char>> {
    s.map_values(|x: String| x@)
}

/// The whitelisting globs: the `--include` ones, or `*.lp` when none is given.
pub open spec fn include_globs(includes: Seq<Seq<char>>) -> Seq<Seq<char>> {
    if includes.len() == 0 {
        seq!["*.lp"@]
    } else {
        includes
    }
}

/// The `--exclude` globs followed by the `--extend-exclude` ones.
pub open spec fn exclude_texts(cli: Cli) -> Seq<Seq<char>> {
    strings_view(cli.exclude@) + strings_view(cli.extend_exclude@)
}

/// An exclusion as an override glob: negated with a leading `!`.
pub open spec fn negated(globs: Seq<Seq<char>>) -> Seq<Seq<char>> {
    globs.map_values(|g: Seq<char>| "!"@ + g)
}

/// Every glob handed to the matcher, in order.
pub open spec fn selector_globs(cli: Cli) -> Seq<Seq<char>> {
    include_globs(strings_view(cli.includes@)) + negated(exclude_texts(cli))
}

/// The first of the first `n` globs of `globs` that does not parse, reported
/// as a bad `--what` glob under its command-line spelling in `shown`.
pub open spec fn glob_fault(
    root: Seq<char>,
    globs: Seq<Seq<char>>,
    shown: Seq<Seq<char>>,
    what: Seq<char>,
    n: int,
) -> Option<Seq<char>>
    decreases n,
{
    if n <= 0 {
        None
    } else {
        match glob_fault(root, globs, shown, what, n - 1) {
            Some(m) => Some(m),
            None => match glob_error_spec(root, globs[n - 1]) {
                Some(e) => Some("bad --"@ + what + " glob `"@ + shown[n - 1] + "`: "@ + e),
                None => None,
            },
        }
    }
}

/// Why the matcher for a search of `root` cannot be set up: the first include
/// glob that does not parse, else the first exclusion, else a failed build.
pub open spec fn selector_fault(root: Seq<char>, cli: Cli) -> Option<Seq<char>> {
    let inc = include_globs(strings_view(cli.includes@));
    let exc = exclude_texts(cli);
    match glob_fault(root, inc, inc, "include"@, inc.len() as int) {
        Some(m) => Some(m),
        None => match glob_fault(root, negated(exc), exc, "exclude"@, exc.len() as int) {
            Some(m) => Some(m),
            None => match glob_build_error_spec(root, selector_globs(cli)) {
                Some(e) => Some("building --include/--exclude globs: "@ + e),
                None => None,
            },
        },
    }
}

/// The walked paths the matcher whitelists, in walk order.
pub open spec fn selected_spec(root: Seq<char>, globs: Seq<Seq<char>>, walked: Seq<Seq<char>>) -> Seq<Seq<char>>
    decreases walked.len(),
{
    if walked.len() == 0 {
        Seq::empty()
    } else {
        let rest = selected_spec(root, globs, walked.drop_last());
        if glob_selects_spec(root, globs, walked.last()) {
            rest.push(walked.last())
        } else {
            rest
        }
    }
}

/// Paths in `Path` order, each no later than the next.
pub open spec fn path_sorted(s: Seq<Seq<char>>) -> bool {
    forall|i: int| 0 <= i < s.len() - 1 ==> path_order_spec(#[trigger] s[i], s[i + 1]) <= 0
}

/// Once a glob fault is found, later globs do not change it.
proof fn lemma_glob_fault_stays(
    root: Seq<char>,
    globs: Seq<Seq<char>>,
    shown: Seq<Seq<char>>,
    what: Seq<char>,
    i: int,
    n: int,
)
    requires
        0 <= i <= n,
        glob_fault(root, globs, shown, what, i) is Some,
    ensures
        glob_fault(root, globs, shown, what, n) == glob_fault(root, globs, shown, what, i),
    decreases n - i,
{
    if i < n {
        lemma_glob_fault_stays(root, globs, shown, what, i, n - 1);
    }
}

/// The concatenation `a + b + c + d + e`.
fn join5(a: &str, b: &str, c: &str, d: &str, e: &str) -> (m: String)
    ensures
        m@ == a@ + b@ + c@ + d@ + e@,
{
    String::from_str(a).concat(b).concat(c).concat(d).concat(e)
}

/// The first glob of `globs` that does not parse, as a bad `--what` glob
/// message naming its spelling in `shown`.
fn check_globs(root: &str, globs: &Vec<String>, shown: &Vec<String>, what: &str) -> (r: Option<String>)
    requires
        globs@.len() == shown@.len(),
    ensures
        match r {
            Some(m) => glob_fault(root@, strings_view(globs@), strings_view(shown@), what@, globs@.len() as int)
                == Some(m@),
            None => glob_fault(root@, strings_view(globs@), strings_view(shown@), what@, globs@.len() as int) is None,
        },
{
    let mut i: usize = 0;
    while i < globs.len()
        invariant
            i <= globs@.len(),
            globs@.len() == shown@.len(),
            glob_fault(root@, strings_view(globs@), strings_view(shown@), what@, i as int) is None,
        decreases globs@.len() - i,
    {
        match glob_error(root, globs[i].as_str()) {
            Some(e) => {
                let m = join5("bad --", what, " glob `", shown[i].as_str(), "`: ").concat(e.as_str());
                assert(strings_view(globs@)[i as int] == globs@[i as int]@);
                assert(strings_view(shown@)[i as int] == shown@[i as int]@);
                proof {
                    lemma_glob_fault_stays(
                        root@,
                        strings_view(globs@),
                        strings_view(shown@),
                        what@,
                        i + 1,
                        globs@.len() as int,
                    );
                }
                return Some(m);
            },
            None => {
                assert(strings_view(globs@)[i as int] == globs@[i as int]@);
            },
        }
        i = i + 1;
    }
    None
}

/// Insert `x` into the path-sorted `files` after every path it does not precede.
fn insert_sorted(files: &mut Vec<String>, x: String)
    requires
        path_sorted(strings_view(old(files)@)),
    ensures
        path_sorted(strings_view(final(files)@)),
        strings_view(final(files)@).to_multiset() == strings_view(old(files)@).to_multiset().insert(x@),
{
    let ghost vs = strings_view(files@);
    let mut j: usize = 0;
    while j < files.len() && path_order(x.as_str(), files[j].as_str()) >= 0
        invariant
            files@ == old(files)@,
            vs == strings_view(files@),
            j <= files@.len(),
            j > 0 ==> path_order_spec(vs[j - 1], x@) <= 0,
        decreases files@.len() - j,
    {
        j = j + 1;
    }
    assert(j < vs.len() ==> path_order_spec(x@, vs[j as int]) < 0);
    let ghost xv = x@;
    files.insert(j, x);
    let ghost ws = vs.insert(j as int, xv);
    assert(strings_view(files@) =~= ws);
    proof {
        vstd::seq_lib::to_multiset_insert(vs, j as int, xv);
        assert forall|i: int| 0 <= i < ws.len() - 1 implies path_order_spec(#[trigger] ws[i], ws[i + 1]) <= 0 by {
            if i + 1 < j {
                assert(ws[i] == vs[i] && ws[i + 1] == vs[i + 1]);
            } else if i + 1 == j {
                assert(ws[i] == vs[i] && ws[i + 1] == xv);
            } else if i == j {
                assert(ws[i] == xv && ws[i + 1] == vs[i]);
            } else {
                assert(ws[i] == vs[i - 1] && ws[i + 1] == vs[i]);
            }
        }
    }
}

/// The files a directory search of `root` formats: of the walked regular
/// files, in walk order, those the override matcher whitelists, sorted by
/// `Path` order (`ignore`'s matcher never un-ignores what the walk left out).
/// `Err` with the reason when a glob does not parse or the matcher cannot be
/// built, whatever was walked.
pub fn select_files(root: &str, cli: &Cli, walked: &Vec<String>) -> (r: Result<Vec<String>, String>)
    ensures
        match r {
            Err(m) => selector_fault(root@, *cli) == Some(m@),
            Ok(files) => {
                &&& selector_fault(root@, *cli) is None
                &&& strings_view(files@).to_multiset() == selected_spec(
                    root@,
                    selector_globs(*cli),
                    strings_view(walked@),
                ).to_multiset()
                &&& path_sorted(strings_view(files@))
            },
        },
{
    let mut includes: Vec<String> = Vec::new();
    if cli.includes.len() == 0 {
        includes.push(String::from_str("*.lp"));
        assert(strings_view(includes@) =~= seq!["*.lp"@]);
    } else {
        append_strings(&mut includes, &cli.includes);
        assert(strings_view(includes@) =~= strings_view(cli.includes@));
    }
    match check_globs(root, &includes, &includes, "include") {
        Some(m) => {
            return Err(m);
        },
        None => {},
    }
    let mut excludes: Vec<String> = Vec::new();
    append_strings(&mut excludes, &cli.exclude);
    append_strings(&mut excludes, &cli.extend_exclude);
    assert(strings_view(excludes@) =~= exclude_texts(*cli));
    let mut negations: Vec<String> = Vec::new();
    append_negated(&mut negations, &excludes);
    assert(strings_view(negations@) =~= negated(exclude_texts(*cli)));
    match check_globs(root, &negations, &excludes, "exclude") {
        Some(m) => {
            return Err(m);
        },
        None => {},
    }
    let mut globs: Vec<String> = Vec::new();
    append_strings(&mut globs, &includes);
    append_strings(&mut globs, &negations);
    let ghost gs = selector_globs(*cli);
    assert(strings_view(globs@) =~= gs);
    match glob_build_error(root, &globs) {
        Some(e) => {
            return Err(String::from_str("building --include/--exclude globs: ").concat(e.as_str()));
        },
        None => {},
    }
    let ghost ws = strings_view(walked@);
    let mut files: Vec<String> = Vec::new();
    let mut i: usize = 0;
    assert(ws.take(0) =~= Seq::<Seq<char>>::empty());
    assert(strings_view(files@) =~= Seq::<Seq<char>>::empty());
    while i < walked.len()
        invariant
            i <= walked@.len(),
            ws == strings_view(walked@),
            strings_view(globs@) == gs,
            path_sorted(strings_view(files@)),
            strings_view(files@).to_multiset() == selected_spec(root@, gs, ws.take(i as int)).to_multiset(),
        decreases walked@.len() - i,
    {
        let ghost before = selected_spec(root@, gs, ws.take(i as int));
        assert(ws.take(i + 1).drop_last() =~= ws.take(i as int));
        assert(ws.take(i + 1).last() == walked@[i as int]@);
        if glob_selects(root, &globs, walked[i].as_str()) {
            insert_sorted(&mut files, walked[i].clone());
            proof {
                vstd::seq_lib::to_multiset_build(before, walked@[i as int]@);
            }
        }
        i = i + 1;
    }
    assert(ws.take(walked@.len() as int) =~= ws);
    Ok(files)
}

/// Append copies of `src` to `dst`.
fn append_strings(dst: &mut Vec<String>, src: &Vec<String>)
    ensures
        strings_view(final(dst)@) == strings_view(old(dst)@) + strings_view(src@),
{
    let mut k: usize = 0;
    while k < src.len()
        invariant
            k <= src@.len(),
            strings_view(dst@) == strings_view(old(dst)@) + strings_view(src@).take(k as int),
        decreases src@.len() - k,
    {
        let ghost before = dst@;
        dst.push(src[k].clone());
        assert(strings_view(dst@) =~= strings_view(before).push(src@[k as int]@));
        assert(strings_view(src@).take(k + 1) =~= strings_view(src@).take(k as int).push(src@[k as int]@));
        k = k + 1;
    }
    assert(strings_view(src@).take(src@.len() as int) =~= strings_view(src@));
}

/// Append each of `src` negated with a leading `!` to `dst`.
fn append_negated(dst: &mut Vec<String>, src: &Vec<String>)
    ensures
        strings_view(final(dst)@) == strings_view(old(dst)@) + negated(strings_view(src@)),
{
    let mut k: usize = 0;
    while k < src.len()
        invariant
            k <= src@.len(),
            strings_view(dst@) == strings_view(old(dst)@) + negated(strings_view(src@)).take(k as int),
        decreases src@.len() - k,
    {
        let ghost before = dst@;
        dst.push(String::from_str("!").concat(src[k].as_str()));
        assert(strings_view(dst@) =~= strings_view(before).push("!"@ + src@[k as int]@));
        assert(negated(strings_view(src@)).take(k + 1) =~= negated(strings_view(src@)).take(k as int).push(
            "!"@ + src@[k as int]@,
        ));
        k = k + 1;
    }
    assert(negated(strings_view(src@)).take(src@.len() as int) =~= negated(strings_view(src@)));
}

} // verus!
