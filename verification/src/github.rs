//! The sample games' repository listing: which tree entries are game folders,
//! which blobs belong to a game, and the URLs the listing and the files live at.
//!
//! Fetching and JSON decoding happen at the edge; this module works on the
//! decoded git tree.
use vstd::prelude::*;
use vstd::string::*;

use crate::order::{insert_sorted_keep, sorted};
use crate::paths::last_index_exec;
use crate::text::{
    chars_of, push_all, same_text, slice_of, starts_with, starts_with_exec, string_of, texts_of,
};

verus! {

/// One entry of a recursive git tree listing.
pub struct GithubTreeItem {
    /// Path of the entry from the repository root.
    pub path: String,
    /// Entry type: `blob` for a file, `tree` for a folder.
    pub kind: String,
}

/// A recursive git tree listing.
pub struct GithubTree {
    /// Every entry of the tree, in listing order.
    pub tree: Vec<GithubTreeItem>,
}

impl View for GithubTreeItem {
    type V = (Seq<char>, Seq<char>);

    open spec fn view(&self) -> (Seq<char>, Seq<char>) {
        (self.path@, self.kind@)
    }
}

impl View for GithubTree {
    type V = Seq<(Seq<char>, Seq<char>)>;

    open spec fn view(&self) -> Seq<(Seq<char>, Seq<char>)> {
        self.tree@.map_values(|item: GithubTreeItem| item@)
    }
}

/// Folder holding every game: `games/`.
pub open spec fn games_prefix() -> Seq<char> {
    "games/"@
}

/// Shared configuration of all games: `games/conf.json5`.
pub open spec fn games_conf() -> Seq<char> {
    "games/conf.json5"@
}

/// Prefix of every path inside the game folder `game`: `games/{game}/`.
pub open spec fn game_prefix(game: Seq<char>) -> Seq<char> {
    games_prefix() + game + seq!['/']
}

/// The game folder an entry names: a `tree` at `games/<name>`, `<name>` being
/// non-empty and holding no `/`.
pub open spec fn game_folder_of(item: (Seq<char>, Seq<char>)) -> Option<Seq<char>> {
    if item.1 == "tree"@ && starts_with(item.0, games_prefix()) {
        let rest = item.0.skip(games_prefix().len() as int);
        if rest.len() > 0 && !rest.contains('/') {
            Some(rest)
        } else {
            None
        }
    } else {
        None
    }
}

/// The game folder names of `items`, in listing order.
pub open spec fn game_folders_in(items: Seq<(Seq<char>, Seq<char>)>) -> Seq<Seq<char>>
    decreases items.len(),
{
    if items.len() == 0 {
        Seq::empty()
    } else {
        let before = game_folders_in(items.drop_last());
        match game_folder_of(items.last()) {
            Some(name) => before.push(name),
            None => before,
        }
    }
}

/// The entry is a file of game `game`, or the shared games configuration.
pub open spec fn is_game_blob(item: (Seq<char>, Seq<char>), game: Seq<char>) -> bool {
    item.1 == "blob"@ && (item.0 == games_conf() || starts_with(item.0, game_prefix(game)))
}

/// The paths of the blobs of game `game` (and of the games configuration), in
/// listing order.
pub open spec fn game_blobs_in(items: Seq<(Seq<char>, Seq<char>)>, game: Seq<char>) -> Seq<Seq<char>>
    decreases items.len(),
{
    if items.len() == 0 {
        Seq::empty()
    } else {
        let before = game_blobs_in(items.drop_last(), game);
        if is_game_blob(items.last(), game) {
            before.push(items.last().0)
        } else {
            before
        }
    }
}

/// `https://raw.githubusercontent.com/{repo}/{branch}/{path}`.
pub open spec fn raw_url_of(repo: Seq<char>, branch: Seq<char>, path: Seq<char>) -> Seq<char> {
    "https://raw.githubusercontent.com/"@ + repo + seq!['/'] + branch + seq!['/'] + path
}

/// `https://api.github.com/repos/{repo}/git/trees/{branch}?recursive=1`.
pub open spec fn tree_url_of(repo: Seq<char>, branch: Seq<char>) -> Seq<char> {
    "https://api.github.com/repos/"@ + repo + "/git/trees/"@ + branch + "?recursive=1"@
}

/// The game folder an entry names, if it names one.
fn game_folder_exec(item: &GithubTreeItem) -> (r: Option<String>)
    ensures
        match r {
            Some(name) => game_folder_of(item@) == Some(name@),
            None => game_folder_of(item@) is None,
        },
{
    if !same_text(item.kind.as_str(), "tree") {
        return None;
    }
    let path = chars_of(item.path.as_str());
    let prefix = chars_of("games/");
    if !starts_with_exec(&path, &prefix) {
        return None;
    }
    let rest = slice_of(&path, prefix.len(), path.len());
    assert(rest@ =~= item.path@.skip(games_prefix().len() as int));
    if rest.len() == 0 {
        return None;
    }
    let slash = last_index_exec(&rest, '/');
    proof {
        crate::paths::lemma_last_index_of(rest@, '/');
    }
    match slash {
        Some(i) => {
            assert(rest@[i as int] == '/');
            None
        },
        None => Some(string_of(&rest)),
    }
}

/// Names of the top-level game folders of a listing (`tree` entries at exactly
/// `games/<name>`), sorted; a name listed twice stays twice.
pub fn filter_game_folders_from_tree(tree: &GithubTree) -> (r: Vec<String>)
    ensures
        sorted(texts_of(r@)),
        texts_of(r@).to_multiset() == game_folders_in(tree@).to_multiset(),
{
    let mut folders: Vec<String> = Vec::new();
    let mut i: usize = 0;
    assert(texts_of(folders@) =~= Seq::<Seq<char>>::empty());
    assert(tree@.take(0) =~= Seq::<(Seq<char>, Seq<char>)>::empty());
    while i < tree.tree.len()
        invariant
            i <= tree.tree@.len(),
            sorted(texts_of(folders@)),
            texts_of(folders@).to_multiset() == game_folders_in(tree@.take(i as int)).to_multiset(),
        decreases tree.tree.len() - i,
    {
        let ghost items = tree@.take(i + 1);
        assert(items.drop_last() =~= tree@.take(i as int));
        assert(items.last() == tree.tree@[i as int]@);
        match game_folder_exec(&tree.tree[i]) {
            Some(name) => {
                let ghost key = name@;
                insert_sorted_keep(&mut folders, name);
                proof {
                    vstd::seq_lib::to_multiset_build(game_folders_in(tree@.take(i as int)), key);
                }
            },
            None => {},
        }
        i = i + 1;
    }
    assert(tree@.take(i as int) =~= tree@);
    folders
}

/// Paths of the blobs that belong to game `game` (every file under
/// `games/{game}/`) plus `games/conf.json5`, in listing order.
pub fn game_blob_paths(tree: &GithubTree, game: &str) -> (r: Vec<String>)
    ensures
        texts_of(r@) == game_blobs_in(tree@, game@),
{
    let conf = chars_of("games/conf.json5");
    let mut prefix = chars_of("games/");
    push_all(&mut prefix, &chars_of(game));
    prefix.push('/');
    assert(prefix@ =~= game_prefix(game@));
    let mut paths: Vec<String> = Vec::new();
    let mut i: usize = 0;
    assert(texts_of(paths@) =~= game_blobs_in(tree@.take(0), game@));
    while i < tree.tree.len()
        invariant
            i <= tree.tree@.len(),
            conf@ == games_conf(),
            prefix@ == game_prefix(game@),
            texts_of(paths@) == game_blobs_in(tree@.take(i as int), game@),
        decreases tree.tree.len() - i,
    {
        let ghost items = tree@.take(i + 1);
        assert(items.drop_last() =~= tree@.take(i as int));
        let item = &tree.tree[i];
        assert(items.last() == item@);
        if same_text(item.kind.as_str(), "blob") {
            let path = chars_of(item.path.as_str());
            if crate::text::same_chars(&path, &conf) || starts_with_exec(&path, &prefix) {
                paths.push(item.path.clone());
                assert(texts_of(paths@) =~= game_blobs_in(items, game@));
            }
        }
        i = i + 1;
    }
    assert(tree@.take(i as int) =~= tree@);
    paths
}

/// Address of the raw contents of `path` on branch `branch` of `repo` (`owner/name`).
pub fn raw_url(repo: &str, branch: &str, path: &str) -> (r: String)
    ensures
        r@ == raw_url_of(repo@, branch@, path@),
{
    let mut out = chars_of("https://raw.githubusercontent.com/");
    push_all(&mut out, &chars_of(repo));
    out.push('/');
    push_all(&mut out, &chars_of(branch));
    out.push('/');
    push_all(&mut out, &chars_of(path));
    assert(out@ =~= raw_url_of(repo@, branch@, path@));
    string_of(&out)
}

/// Address of the recursive tree listing of branch `branch` of `repo`.
pub fn tree_url(repo: &str, branch: &str) -> (r: String)
    ensures
        r@ == tree_url_of(repo@, branch@),
{
    let mut out = chars_of("https://api.github.com/repos/");
    push_all(&mut out, &chars_of(repo));
    push_all(&mut out, &chars_of("/git/trees/"));
    push_all(&mut out, &chars_of(branch));
    push_all(&mut out, &chars_of("?recursive=1"));
    assert(out@ =~= tree_url_of(repo@, branch@));
    string_of(&out)
}

/// The files listed for game `game` are the blobs of the tree at
/// `games/conf.json5` or anywhere inside `games/{game}/`, at any depth, and
/// nothing else.
pub proof fn game_files_are_listed_at_every_depth(items: Seq<(Seq<char>, Seq<char>)>, game: Seq<char>)
    ensures
        forall|i: int|
            0 <= i < items.len() && (#[trigger] items[i]).1 == "blob"@ && (items[i].0 == "games/conf.json5"@
                || starts_with(items[i].0, "games/"@ + game + seq!['/'])) ==> game_blobs_in(items, game).contains(
                items[i].0,
            ),
        forall|p: Seq<char>| #[trigger] game_blobs_in(items, game).contains(p) ==> exists|i: int|
            0 <= i < items.len() && #[trigger] items[i] == (p, "blob"@) && (p == "games/conf.json5"@
                || starts_with(p, "games/"@ + game + seq!['/'])),
    decreases items.len(),
{
    if items.len() > 0 {
        let d = items.drop_last();
        game_files_are_listed_at_every_depth(d, game);
        let before = game_blobs_in(d, game);
        let after = game_blobs_in(items, game);
        assert forall|i: int|
            0 <= i < items.len() && (#[trigger] items[i]).1 == "blob"@ && (items[i].0 == "games/conf.json5"@
                || starts_with(items[i].0, "games/"@ + game + seq!['/'])) implies after.contains(items[i].0) by {
            if i < items.len() - 1 {
                assert(d[i] == items[i]);
                let k = choose|k: int| 0 <= k < before.len() && before[k] == d[i].0;
                if is_game_blob(items.last(), game) {
                    assert(after[k] == before[k]);
                }
            } else {
                assert(is_game_blob(items.last(), game));
                assert(after[after.len() - 1] == items[i].0);
            }
        }
        assert forall|p: Seq<char>| #[trigger] after.contains(p) implies exists|i: int|
            0 <= i < items.len() && #[trigger] items[i] == (p, "blob"@) && (p == "games/conf.json5"@
                || starts_with(p, "games/"@ + game + seq!['/'])) by {
            let k = choose|k: int| 0 <= k < after.len() && after[k] == p;
            if k < before.len() {
                assert(before[k] == p);
                assert(before.contains(p));
                let i = choose|i: int|
                    0 <= i < d.len() && #[trigger] d[i] == (p, "blob"@) && (p == "games/conf.json5"@
                        || starts_with(p, "games/"@ + game + seq!['/']));
                assert(items[i] == d[i]);
            } else {
                let i = items.len() - 1;
                assert(items[i] == items.last());
                assert(items[i] == (p, "blob"@));
            }
        }
    }
}

} // verus!
