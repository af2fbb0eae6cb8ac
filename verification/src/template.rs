//! Installing a game from the sample repository into the workspace.
//!
//! The files of a game arrive as `(path, content)` pairs. A listing is usable
//! when it holds both the shared `games/conf.json5` and at least one file of
//! the game. The game is installed under a folder of `games/` that is still
//! free: its own name, else the name followed by `-1`, `-2`, … Deck names of
//! the form `"<game>.<deck>"` are renamed to the installed folder.
use vstd::prelude::*;
use vstd::string::*;

use crate::github::{game_prefix, games_conf};
use crate::pathset::PathSet;
use crate::vfs::{lemma_exists_after_put, lookup, written, Vfs};
use crate::text::{chars_of, occurs_at, occurs_at_exec, push_all, same_chars, starts_with, starts_with_exec, string_of};

verus! {

/// `s` with every occurrence of the non-empty `pat` replaced by `rep`, matches
/// taken from the left without overlap (`str::replace`).
pub open spec fn replace_all(s: Seq<char>, pat: Seq<char>, rep: Seq<char>) -> Seq<char>
    decreases s.len(),
{
    if pat.len() == 0 || s.len() == 0 {
        s
    } else if occurs_at(s, pat, 0) {
        rep + replace_all(s.skip(pat.len() as int), pat, rep)
    } else {
        seq![s[0]] + replace_all(s.drop_first(), pat, rep)
    }
}

/// The deck-name prefix of game `game`: `"<game>.`.
pub open spec fn deck_prefix(game: Seq<char>) -> Seq<char> {
    seq!['"'] + game + seq!['.']
}

/// `content` with the deck names of game `from` renamed to game `to`.
pub open spec fn retarget_of(content: Seq<char>, from: Seq<char>, to: Seq<char>) -> Seq<char> {
    if from == to {
        content
    } else {
        replace_all(content, deck_prefix(from), deck_prefix(to))
    }
}

/// Paths and contents of a list of files.
pub open spec fn file_views(files: Seq<(String, String)>) -> Seq<(Seq<char>, Seq<char>)> {
    files.map_values(|f: (String, String)| (f.0@, f.1@))
}

/// Some file of `files` is at `path`.
pub open spec fn lists_path(files: Seq<(Seq<char>, Seq<char>)>, path: Seq<char>) -> bool {
    exists|i: int| 0 <= i < files.len() && #[trigger] files[i].0 == path
}

/// Some file of `files` lies under `prefix`.
pub open spec fn lists_below(files: Seq<(Seq<char>, Seq<char>)>, prefix: Seq<char>) -> bool {
    exists|i: int| 0 <= i < files.len() && starts_with(#[trigger] files[i].0, prefix)
}

/// `files` holds the shared configuration and some file under `prefix`.
pub open spec fn has_components_of(files: Seq<(Seq<char>, Seq<char>)>, prefix: Seq<char>) -> bool {
    lists_path(files, games_conf()) && lists_below(files, prefix)
}

/// Folder of the default sample game: `games/new-game/`.
pub open spec fn new_game_prefix() -> Seq<char> {
    "games/new-game/"@
}

/// Message for a listing of game `game` that lacks a component.
pub open spec fn missing_message(game: Seq<char>) -> Seq<char> {
    "missing games/"@ + game + " or games/conf.json5"@
}

/// `s@.skip(i)` starts with `pat` exactly when `pat` occurs in `s` at `i`.
proof fn lemma_occurs_skip(s: Seq<char>, pat: Seq<char>, i: int)
    requires
        0 <= i <= s.len(),
    ensures
        occurs_at(s.skip(i), pat, 0) == occurs_at(s, pat, i),
{
    if i + pat.len() <= s.len() {
        assert(s.skip(i).subrange(0, pat.len() as int) =~= s.subrange(i, i + pat.len()));
    }
}

/// Replaces every occurrence of the non-empty `pat` in `s` by `rep`.
fn replace_chars(s: &Vec<char>, pat: &Vec<char>, rep: &Vec<char>) -> (r: Vec<char>)
    requires
        pat@.len() > 0,
    ensures
        r@ == replace_all(s@, pat@, rep@),
{
    let mut out: Vec<char> = Vec::new();
    let mut i: usize = 0;
    assert(s@.skip(0) =~= s@);
    while i < s.len()
        invariant
            i <= s@.len(),
            pat@.len() > 0,
            out@ + replace_all(s@.skip(i as int), pat@, rep@) == replace_all(s@, pat@, rep@),
        decreases s.len() - i,
    {
        let ghost rest = s@.skip(i as int);
        proof {
            lemma_occurs_skip(s@, pat@, i as int);
        }
        if occurs_at_exec(s, pat, i) {
            let ghost before = out@;
            push_all(&mut out, rep);
            assert(rest.skip(pat@.len() as int) =~= s@.skip(i + pat@.len()));
            assert(before + (rep@ + replace_all(s@.skip(i + pat@.len()), pat@, rep@)) =~= out@
                + replace_all(s@.skip(i + pat@.len()), pat@, rep@));
            i = i + pat.len();
        } else {
            let ghost before = out@;
            out.push(s[i]);
            assert(rest.drop_first() =~= s@.skip(i + 1));
            assert(before + (seq![rest[0]] + replace_all(s@.skip(i + 1), pat@, rep@)) =~= out@
                + replace_all(s@.skip(i + 1), pat@, rep@));
            i = i + 1;
        }
    }
    assert(s@.skip(i as int) =~= Seq::<char>::empty());
    assert(out@ + Seq::<char>::empty() =~= out@);
    out
}

/// `"<game>.`, as characters.
fn deck_prefix_chars(game: &str) -> (r: Vec<char>)
    ensures
        r@ == deck_prefix(game@),
{
    let mut r: Vec<char> = Vec::new();
    r.push('"');
    push_all(&mut r, &chars_of(game));
    r.push('.');
    assert(r@ =~= deck_prefix(game@));
    r
}

/// Renames the deck names of game `from` in `content` to game `to`: every
/// `"<from>.` becomes `"<to>.`; nothing changes when the names are equal.
pub fn retarget_game_id(content: &str, from: &str, to: &str) -> (r: String)
    ensures
        r@ == retarget_of(content@, from@, to@),
{
    let from_chars = chars_of(from);
    let to_chars = chars_of(to);
    if same_chars(&from_chars, &to_chars) {
        return content.to_owned();
    }
    let pat = deck_prefix_chars(from);
    let rep = deck_prefix_chars(to);
    string_of(&replace_chars(&chars_of(content), &pat, &rep))
}

/// Whether some file of `files` is at `path`.
fn lists_path_exec(files: &[(String, String)], path: &Vec<char>) -> (r: bool)
    ensures
        r == lists_path(file_views(files@), path@),
{
    let ghost views = file_views(files@);
    let mut i: usize = 0;
    while i < files.len()
        invariant
            i <= files@.len(),
            views == file_views(files@),
            forall|j: int| 0 <= j < i ==> #[trigger] views[j].0 != path@,
        decreases files.len() - i,
    {
        if same_chars(&chars_of(files[i].0.as_str()), path) {
            assert(views[i as int].0 == path@);
            return true;
        }
        i = i + 1;
    }
    false
}

/// Whether some file of `files` lies under `prefix`.
fn lists_below_exec(files: &[(String, String)], prefix: &Vec<char>) -> (r: bool)
    ensures
        r == lists_below(file_views(files@), prefix@),
{
    let ghost views = file_views(files@);
    let mut i: usize = 0;
    while i < files.len()
        invariant
            i <= files@.len(),
            views == file_views(files@),
            forall|j: int| 0 <= j < i ==> !starts_with(#[trigger] views[j].0, prefix@),
        decreases files.len() - i,
    {
        if starts_with_exec(&chars_of(files[i].0.as_str()), prefix) {
            assert(starts_with(views[i as int].0, prefix@));
            return true;
        }
        i = i + 1;
    }
    false
}

/// `games/{game}/`, as characters.
fn game_prefix_chars(game: &str) -> (r: Vec<char>)
    ensures
        r@ == game_prefix(game@),
{
    let mut r = chars_of("games/");
    push_all(&mut r, &chars_of(game));
    r.push('/');
    assert(r@ =~= game_prefix(game@));
    r
}

/// Whether `files` holds `games/conf.json5` and some file under `games/{source_game}/`.
pub fn has_game_components(source_game: &str, files: &[(String, String)]) -> (r: bool)
    ensures
        r == has_components_of(file_views(files@), game_prefix(source_game@)),
{
    let conf_ok = lists_path_exec(files, &chars_of("games/conf.json5"));
    let game = lists_below_exec(files, &game_prefix_chars(source_game));
    conf_ok && game
}

/// Accepts the fetched files of `source_game` when both components are there;
/// otherwise fails with `missing games/{source_game} or games/conf.json5`.
pub fn finish_game_files(source_game: &str, files: Vec<(String, String)>) -> (r: Result<
    Vec<(String, String)>,
    String,
>)
    ensures
        match r {
            Ok(v) => has_components_of(file_views(files@), game_prefix(source_game@)) && v@ == files@,
            Err(e) => !has_components_of(file_views(files@), game_prefix(source_game@)) && e@
                == missing_message(source_game@),
        },
{
    if !has_game_components(source_game, files.as_slice()) {
        let mut msg = chars_of("missing games/");
        push_all(&mut msg, &chars_of(source_game));
        push_all(&mut msg, &chars_of(" or games/conf.json5"));
        assert(msg@ =~= missing_message(source_game@));
        return Err(string_of(&msg));
    }
    Ok(files)
}

/// Whether `files` holds `games/conf.json5` and some file under `games/new-game/`.
pub fn has_both_components(files: &[(String, String)]) -> (r: bool)
    ensures
        r == has_components_of(file_views(files@), new_game_prefix()),
{
    let conf_ok = lists_path_exec(files, &chars_of("games/conf.json5"));
    let game = lists_below_exec(files, &chars_of("games/new-game/"));
    conf_ok && game
}

/// Accepts the fetched files of the default sample game when both components
/// are there; otherwise fails with `missing games/new-game or games/conf.json5`.
pub fn finish_files(files: Vec<(String, String)>) -> (r: Result<Vec<(String, String)>, String>)
    ensures
        match r {
            Ok(v) => has_components_of(file_views(files@), new_game_prefix()) && v@ == files@,
            Err(e) => !has_components_of(file_views(files@), new_game_prefix()) && e@
                == "missing games/new-game or games/conf.json5"@,
        },
{
    if !has_both_components(files.as_slice()) {
        return Err(String::from_str("missing games/new-game or games/conf.json5"));
    }
    Ok(files)
}

/// The decimal digit for `d` in `0..10`.
pub open spec fn digit_char(d: int) -> char {
    if d == 0 {
        '0'
    } else if d == 1 {
        '1'
    } else if d == 2 {
        '2'
    } else if d == 3 {
        '3'
    } else if d == 4 {
        '4'
    } else if d == 5 {
        '5'
    } else if d == 6 {
        '6'
    } else if d == 7 {
        '7'
    } else if d == 8 {
        '8'
    } else {
        '9'
    }
}

/// Decimal notation of `n`, without leading zeros.
pub open spec fn decimal(n: nat) -> Seq<char>
    decreases n,
{
    if n < 10 {
        seq![digit_char(n as int)]
    } else {
        decimal(n / 10).push(digit_char((n % 10) as int))
    }
}

/// The `n`-th name tried for a new folder: `base`, then `base-1`, `base-2`, …
pub open spec fn candidate(base: Seq<char>, n: nat) -> Seq<char> {
    if n == 0 {
        base
    } else {
        base + seq!['-'] + decimal(n)
    }
}

/// `name` is the first candidate from `base` that `taken` does not hold.
pub open spec fn first_free(taken: Set<Seq<char>>, base: Seq<char>, name: Seq<char>) -> bool {
    exists|n: nat|
        #![trigger candidate(base, n)]
        name == candidate(base, n) && !taken.contains(name) && forall|k: nat|
            k < n ==> taken.contains(#[trigger] candidate(base, k))
}

proof fn lemma_digit_injective(x: int, y: int)
    requires
        0 <= x < 10,
        0 <= y < 10,
        digit_char(x) == digit_char(y),
    ensures
        x == y,
{
    assert(digit_char(x) as u32 == 48 + x);
    assert(digit_char(y) as u32 == 48 + y);
}

proof fn lemma_decimal_len(n: nat)
    ensures
        decimal(n).len() >= 1,
        (decimal(n).len() == 1) == (n < 10),
    decreases n,
{
    if n >= 10 {
        lemma_decimal_len(n / 10);
    }
}

proof fn lemma_decimal_injective(a: nat, b: nat)
    requires
        decimal(a) == decimal(b),
    ensures
        a == b,
    decreases a,
{
    lemma_decimal_len(a);
    lemma_decimal_len(b);
    if a >= 10 && b >= 10 {
        assert(decimal(a) == decimal(a / 10).push(digit_char((a % 10) as int)));
        assert(decimal(b) == decimal(b / 10).push(digit_char((b % 10) as int)));
        let da = decimal(a / 10);
        let db = decimal(b / 10);
        assert(da.push(digit_char((a % 10) as int))[da.len() as int] == digit_char((a % 10) as int));
        assert(db.push(digit_char((b % 10) as int))[db.len() as int] == digit_char((b % 10) as int));
        assert(decimal(a).len() == da.len() + 1);
        assert(da.len() == db.len());
        assert(decimal(a).drop_last() =~= decimal(a / 10));
        assert(decimal(b).drop_last() =~= decimal(b / 10));
        lemma_decimal_injective(a / 10, b / 10);
        let (x, y) = ((a % 10) as int, (b % 10) as int);
        assert(digit_char(x) == digit_char(y));
        lemma_digit_injective(x, y);
        assert(a == 10 * (a / 10) + a % 10) by (nonlinear_arith);
        assert(b == 10 * (b / 10) + b % 10) by (nonlinear_arith);
    } else if a < 10 && b < 10 {
        assert(decimal(a) == seq![digit_char(a as int)]);
        assert(decimal(b) == seq![digit_char(b as int)]);
        assert(seq![digit_char(a as int)][0] == digit_char(a as int));
        assert(seq![digit_char(b as int)][0] == digit_char(b as int));
        lemma_digit_injective(a as int, b as int);
    }
}

/// Different indices give different candidates.
pub proof fn lemma_candidate_injective(base: Seq<char>, a: nat, b: nat)
    requires
        candidate(base, a) == candidate(base, b),
    ensures
        a == b,
{
    lemma_decimal_len(a);
    lemma_decimal_len(b);
    if a > 0 && b > 0 {
        let k: int = base.len() as int + 1;
        assert(candidate(base, a).skip(k) =~= decimal(a));
        assert(candidate(base, b).skip(k) =~= decimal(b));
        lemma_decimal_injective(a, b);
    }
}

/// A finite set that holds the first `n` candidates has at least `n` elements.
proof fn lemma_taken_bound(taken: Set<Seq<char>>, base: Seq<char>, n: nat)
    requires
        taken.finite(),
        forall|k: nat| k < n ==> taken.contains(#[trigger] candidate(base, k)),
    ensures
        n <= taken.len(),
    decreases n,
{
    if n > 0 {
        let last = candidate(base, (n - 1) as nat);
        let rest = taken.remove(last);
        assert forall|k: nat| k < n - 1 implies rest.contains(#[trigger] candidate(base, k)) by {
            if candidate(base, k) == last {
                lemma_candidate_injective(base, k, (n - 1) as nat);
            }
            assert(taken.contains(candidate(base, k)));
        }
        lemma_taken_bound(rest, base, (n - 1) as nat);
    }
}

fn digit_exec(d: u64) -> (c: char)
    requires
        d < 10,
    ensures
        c == digit_char(d as int),
{
    if d == 0 {
        '0'
    } else if d == 1 {
        '1'
    } else if d == 2 {
        '2'
    } else if d == 3 {
        '3'
    } else if d == 4 {
        '4'
    } else if d == 5 {
        '5'
    } else if d == 6 {
        '6'
    } else if d == 7 {
        '7'
    } else if d == 8 {
        '8'
    } else {
        '9'
    }
}

/// Appends the decimal notation of `n` to `out`.
pub fn push_decimal(out: &mut Vec<char>, n: u64)
    ensures
        final(out)@ == old(out)@ + decimal(n as nat),
    decreases n,
{
    if n >= 10 {
        push_decimal(out, n / 10);
    }
    let ghost mid = out@;
    out.push(digit_exec(n % 10));
    proof {
        if n >= 10 {
            assert(out@ =~= old(out)@ + decimal(n as nat));
        } else {
            assert(out@ =~= old(out)@ + decimal(n as nat));
        }
    }
}

/// The `n`-th candidate name from `base`.
fn candidate_exec(base: &Vec<char>, n: u64) -> (r: Vec<char>)
    ensures
        r@ == candidate(base@, n as nat),
{
    let mut r: Vec<char> = Vec::new();
    push_all(&mut r, base);
    if n > 0 {
        r.push('-');
        push_decimal(&mut r, n);
    }
    assert(r@ =~= candidate(base@, n as nat));
    r
}

/// First free folder name from `base`: `base` itself when `taken` does not hold
/// it, else the first of `base-1`, `base-2`, … that it does not hold.
pub fn unique_game_folder(taken: &PathSet, base: &str) -> (r: String)
    ensures
        first_free(taken@, base@, r@),
{
    let base_chars = chars_of(base);
    let bound = taken.len();
    let mut n: u64 = 0;
    let mut name = candidate_exec(&base_chars, 0);
    while taken.contains_chars(&name)
        invariant
            bound == taken@.len(),
            taken@.finite(),
            base_chars@ == base@,
            name@ == candidate(base@, n as nat),
            forall|k: nat| k < n ==> taken@.contains(#[trigger] candidate(base@, k)),
        decreases bound - n,
    {
        proof {
            assert forall|k: nat| k < n + 1 implies taken@.contains(#[trigger] candidate(base@, k)) by {
                if k == n {
                    assert(candidate(base@, k) == name@);
                }
            }
            lemma_taken_bound(taken@, base@, (n + 1) as nat);
        }
        n = n + 1;
        name = candidate_exec(&base_chars, n);
    }
    string_of(&name)
}

/// A game copied into the workspace.
pub struct InstalledGame {
    /// Folder name under `games/` (may carry a `-N` suffix).
    pub folder: String,
    /// Where the files came from.
    pub source: &'static str,
}

/// The writes that installing `files` (fetched for game `src`) into folder
/// `folder` performs, in order. `conf_there` tells whether `games/conf.json5`
/// exists when the next file comes: the shared configuration is only written
/// where it does not exist yet; every other file under `games/{src}/` is
/// written under `games/{folder}/` with its deck names retargeted; the rest
/// is skipped.
pub open spec fn install_writes(
    files: Seq<(Seq<char>, Seq<char>)>,
    src: Seq<char>,
    folder: Seq<char>,
    conf_there: bool,
) -> Seq<(Seq<char>, Seq<char>)>
    decreases files.len(),
{
    if files.len() == 0 {
        Seq::empty()
    } else {
        let path = files[0].0;
        let content = files[0].1;
        let rest = files.drop_first();
        if path == games_conf() {
            if conf_there {
                install_writes(rest, src, folder, true)
            } else {
                seq![(games_conf(), content)] + install_writes(rest, src, folder, true)
            }
        } else if starts_with(path, game_prefix(src)) && path.len() > game_prefix(src).len() {
            let dest = game_prefix(folder) + path.skip(game_prefix(src).len() as int);
            let there = conf_there || dest == games_conf() || starts_with(dest, games_conf() + seq!['/']);
            seq![(dest, retarget_of(content, src, folder))] + install_writes(rest, src, folder, there)
        } else {
            install_writes(rest, src, folder, conf_there)
        }
    }
}


/// The folder names under `games/` that `vfs` already uses.
pub open spec fn used_game_names(vfs: Vfs) -> Set<Seq<char>> {
    Set::new(|name: Seq<char>| vfs.exists_at(crate::github::games_prefix() + name))
}

/// Installs the fetched `files` of game `source_game`: picks the first free
/// folder name from `source_game` under `games/`, writes the game's files
/// there with their deck names retargeted to that folder, and writes
/// `games/conf.json5` only when it does not exist yet.
pub fn install_fetched_game(
    vfs: &mut Vfs,
    source_game: &str,
    files: &Vec<(String, String)>,
    source: &'static str,
) -> (r: InstalledGame)
    ensures
        first_free(used_game_names(*old(vfs)), source_game@, r.folder@),
        r.source == source,
        forall|p: Seq<char>| #[trigger] final(vfs).file(p) == written(
            old(vfs).file(p),
            install_writes(file_views(files@), source_game@, r.folder@, old(vfs).exists_at(games_conf())),
            p,
        ),
        final(vfs).folders() == old(vfs).folders(),
{
    proof {
        reveal_strlit("games");
        reveal_strlit("games/");
        reveal_strlit("games/conf.json5");
    }
    let taken = vfs.names_below("games");
    assert(taken@ =~= used_game_names(*vfs)) by {
        assert("games"@ + seq!['/'] =~= crate::github::games_prefix());
    }
    let folder = unique_game_folder(&taken, source_game);
    let src_prefix = game_prefix_chars(source_game);
    let dest_prefix = game_prefix_chars(folder.as_str());
    let conf = chars_of("games/conf.json5");
    let conf_str = "games/conf.json5";
    let ghost views = file_views(files@);
    let ghost total = install_writes(views, source_game@, folder@, vfs.exists_at(games_conf()));
    let ghost start = *vfs;
    let ghost mut done: Seq<(Seq<char>, Seq<char>)> = Seq::empty();
    let ghost mut there = vfs.exists_at(games_conf());
    let mut i: usize = 0;
    assert(views.skip(0) =~= views);
    assert(done + total =~= total);
    while i < files.len()
        invariant
            i <= files@.len(),
            views == file_views(files@),
            src_prefix@ == game_prefix(source_game@),
            dest_prefix@ == game_prefix(folder@),
            conf@ == games_conf(),
            conf_str@ == games_conf(),
            games_conf().len() > 0,
            there == vfs.exists_at(games_conf()),
            total == done + install_writes(views.skip(i as int), source_game@, folder@, there),
            forall|p: Seq<char>| #[trigger] vfs.file(p) == written(start.file(p), done, p),
            vfs.folders() == start.folders(),
        decreases files.len() - i,
    {
        let ghost rest_views = views.skip(i as int);
        assert(rest_views[0] == views[i as int]);
        assert(rest_views.drop_first() =~= views.skip(i + 1));
        let path = chars_of(files[i].0.as_str());
        if same_chars(&path, &conf) {
            if !vfs.has_entry(conf_str) {
                let ghost before = *vfs;
                let content = files[i].1.clone();
                let ok = vfs.put_file(conf_str, content);
                proof {
                    let w = (games_conf(), views[i as int].1);
                    assert(seq![w] + install_writes(views.skip(i + 1), source_game@, folder@, true)
                        == install_writes(rest_views, source_game@, folder@, there));
                    assert(done + install_writes(rest_views, source_game@, folder@, there) =~= done.push(w)
                        + install_writes(views.skip(i + 1), source_game@, folder@, true));
                    assert forall|p: Seq<char>| #[trigger] vfs.file(p) == written(start.file(p), done.push(w), p) by {
                        assert(done.push(w).drop_last() =~= done);
                    }
                    lemma_exists_after_put(before, *vfs, games_conf(), w.1, games_conf());
                    done = done.push(w);
                    there = true;
                }
            }
        } else if starts_with_exec(&path, &src_prefix) && path.len() > src_prefix.len() {
            let mut dest = dest_prefix.clone();
            let tail = crate::text::slice_of(&path, src_prefix.len(), path.len());
            push_all(&mut dest, &tail);
            let content = retarget_game_id(files[i].1.as_str(), source_game, folder.as_str());
            let dest_str = string_of(&dest);
            let ghost before = *vfs;
            let ghost c = content@;
            let ok = vfs.put_file(dest_str.as_str(), content);
            proof {
                let d = game_prefix(folder@) + views[i as int].0.skip(game_prefix(source_game@).len() as int);
                assert(dest@ =~= d);
                let w = (d, retarget_of(views[i as int].1, source_game@, folder@));
                assert(c == w.1);
                let there2 = there || d == games_conf() || starts_with(d, games_conf() + seq!['/']);
                assert(seq![w] + install_writes(views.skip(i + 1), source_game@, folder@, there2)
                    == install_writes(rest_views, source_game@, folder@, there));
                assert(done + install_writes(rest_views, source_game@, folder@, there) =~= done.push(w)
                    + install_writes(views.skip(i + 1), source_game@, folder@, there2));
                assert forall|p: Seq<char>| #[trigger] vfs.file(p) == written(start.file(p), done.push(w), p) by {
                    assert(done.push(w).drop_last() =~= done);
                }
                lemma_exists_after_put(before, *vfs, d, w.1, games_conf());
                done = done.push(w);
                there = there2;
            }
        }
        i = i + 1;
    }
    assert(views.skip(i as int) =~= Seq::<(Seq<char>, Seq<char>)>::empty());
    assert(done + Seq::<(Seq<char>, Seq<char>)>::empty() =~= done);
    InstalledGame { folder, source }
}

/// Retargeting changes nothing in a text that holds no deck name of the
/// source game.
pub proof fn retarget_without_deck_names_is_identity(content: Seq<char>, from: Seq<char>, to: Seq<char>)
    requires
        !crate::text::contains_text(content, deck_prefix(from)),
    ensures
        retarget_of(content, from, to) == content,
{
    if from != to {
        lemma_replace_absent(content, deck_prefix(from), deck_prefix(to));
    }
}

proof fn lemma_replace_absent(s: Seq<char>, pat: Seq<char>, rep: Seq<char>)
    requires
        !crate::text::contains_text(s, pat),
    ensures
        replace_all(s, pat, rep) == s,
    decreases s.len(),
{
    if pat.len() > 0 && s.len() > 0 {
        assert(!occurs_at(s, pat, 0));
        let t = s.drop_first();
        assert(!crate::text::contains_text(t, pat)) by {
            if crate::text::contains_text(t, pat) {
                let i = choose|i: int| occurs_at(t, pat, i);
                assert(s.subrange(i + 1, i + 1 + pat.len()) =~= t.subrange(i, i + pat.len()));
                assert(occurs_at(s, pat, i + 1));
            }
        }
        lemma_replace_absent(t, pat, rep);
        assert(seq![s[0]] + t =~= s);
    }
}

/// There is one first free name: two names that are both the first free
/// candidate from `base` are the same.
pub proof fn first_free_is_unique(taken: Set<Seq<char>>, base: Seq<char>, a: Seq<char>, b: Seq<char>)
    requires
        first_free(taken, base, a),
        first_free(taken, base, b),
    ensures
        a == b,
{
    let n = choose|n: nat| #![trigger candidate(base, n)] a == candidate(base, n) && !taken.contains(a)
        && forall|k: nat| k < n ==> taken.contains(#[trigger] candidate(base, k));
    let m = choose|m: nat| #![trigger candidate(base, m)] b == candidate(base, m) && !taken.contains(b)
        && forall|k: nat| k < m ==> taken.contains(#[trigger] candidate(base, k));
    if n < m {
        assert(taken.contains(candidate(base, n)));
    } else if m < n {
        assert(taken.contains(candidate(base, m)));
    }
}

} // verus!
