//! The sidebar's file tree: Markdown files found under a folder, arranged as
//! nested folders with folders first and names in case-insensitive order,
//! and the flat, filtered file list shown while searching.
use vstd::prelude::*;
use crate::markdown::{is_markdown, markdown_path};
use crate::text::{chars_of, contains_chars, find, lowercase_of, to_lowercase};

verus! {

broadcast use vstd::string::group_string_axioms;

// ---------------------------------------------------------------------------
// Data
// ---------------------------------------------------------------------------

/// A file or folder of the tree.
pub struct TreeNode {
    pub name: String,
    pub path: String,
    pub is_dir: bool,
    pub children: Vec<TreeNode>,
}

/// The mathematical value of a `TreeNode`.
pub struct NodeModel {
    pub name: Seq<char>,
    pub path: Seq<char>,
    pub is_dir: bool,
    pub children: Seq<NodeModel>,
}

impl View for TreeNode {
    type V = NodeModel;

    open spec fn view(&self) -> NodeModel
        decreases self,
    {
        NodeModel {
            name: self.name@,
            path: self.path@,
            is_dir: self.is_dir,
            children: Seq::new(
                self.children@.len(),
                |i: int|
                    {
                        if 0 <= i < self.children@.len() {
                            proof {
                                assert(decreases_to!(self => self.children));
                                assert(decreases_to!(self.children => self.children@));
                                assert(decreases_to!(self.children@ => self.children@[i]));
                            }
                            self.children@[i].view()
                        } else {
                            NodeModel {
                                name: Seq::empty(),
                                path: Seq::empty(),
                                is_dir: false,
                                children: Seq::empty(),
                            }
                        }
                    },
            ),
        }
    }
}

/// The values of the nodes `v`.
pub open spec fn views(v: Seq<TreeNode>) -> Seq<NodeModel> {
    Seq::new(v.len(), |i: int| v[i]@)
}

/// The characters of the strings `v`.
pub open spec fn strs(v: Seq<String>) -> Seq<Seq<char>> {
    Seq::new(v.len(), |i: int| v[i]@)
}

proof fn lemma_children_view(n: TreeNode)
    ensures
        n@.children == views(n.children@),
{
    assert(n@.children =~= views(n.children@));
}

// ---------------------------------------------------------------------------
// Paths (std::path)
// ---------------------------------------------------------------------------

/// What `Path::strip_prefix` leaves of `file` when `root` is a prefix of it,
/// by the path rules of the platform the crate is built for.
pub uninterp spec fn stripped_path_of(file: Seq<char>, root: Seq<char>) -> Option<Seq<char>>;

/// `std::path::Path::strip_prefix` of `root` from `file`, as a string.
/// Claimed: the result depends on `file` and `root` alone.
#[verifier::external_body]
fn strip_root(file: &str, root: &str) -> (r: Option<String>)
    ensures
        match r {
            Some(p) => stripped_path_of(file@, root@) == Some(p@),
            None => stripped_path_of(file@, root@) is None,
        },
{
    std::path::Path::new(file).strip_prefix(root).ok().map(|p| p.to_string_lossy().into_owned())
}

/// The names of the components of `path`, as `Path::components` gives them,
/// by the path rules of the platform the crate is built for.
pub uninterp spec fn components_of(path: Seq<char>) -> Seq<Seq<char>>;

/// `std::path::Path::components` of `path`, each as a string. Claimed: the
/// result depends on `path` alone.
#[verifier::external_body]
fn path_components(path: &str) -> (r: Vec<String>)
    ensures
        strs(r@) == components_of(path@),
{
    std::path::Path::new(path).components().map(|c| c.as_os_str().to_string_lossy().into_owned()).collect()
}

/// The components of `file` below `root`, when `root` is a prefix of it.
pub open spec fn relative_components_of(file: Seq<char>, root: Seq<char>) -> Option<Seq<Seq<char>>> {
    match stripped_path_of(file, root) {
        Some(rel) => Some(components_of(rel)),
        None => None,
    }
}

/// The path `base` with the component `name` pushed onto it, by the path
/// rules of the platform the crate is built for.
pub uninterp spec fn joined_path_of(base: Seq<char>, name: Seq<char>) -> Seq<char>;

/// `std::path::PathBuf::push` of `name` onto `base`, as a string, by the path
/// rules of the platform the crate is built for. Claimed: the result depends
/// on `base` and `name` alone.
#[verifier::external_body]
fn join_path(base: &str, name: &str) -> (r: String)
    ensures
        r@ == joined_path_of(base@, name@),
{
    let mut p = std::path::PathBuf::from(base);
    p.push(name);
    p.to_string_lossy().into_owned()
}

// ---------------------------------------------------------------------------
// Building the tree
// ---------------------------------------------------------------------------

/// The first index from `i` on of a node named `name` that is a folder
/// exactly when `is_dir`.
pub open spec fn first_match_from(nodes: Seq<NodeModel>, name: Seq<char>, is_dir: bool, i: int) -> Option<int>
    decreases nodes.len() - i,
{
    if i < 0 || i >= nodes.len() {
        None
    } else if nodes[i].name == name && nodes[i].is_dir == is_dir {
        Some(i)
    } else {
        first_match_from(nodes, name, is_dir, i + 1)
    }
}

proof fn lemma_first_match_from(nodes: Seq<NodeModel>, name: Seq<char>, is_dir: bool, i: int)
    requires
        0 <= i,
    ensures
        first_match_from(nodes, name, is_dir, i) matches Some(k) ==> i <= k < nodes.len()
            && nodes[k].name == name && nodes[k].is_dir == is_dir,
    decreases nodes.len() - i,
{
    if i < nodes.len() && !(nodes[i].name == name && nodes[i].is_dir == is_dir) {
        lemma_first_match_from(nodes, name, is_dir, i + 1);
    }
}

/// `nodes`, the entries of a folder at path `base`, with the file whose
/// components below that folder are `comps` added: the first component goes
/// into the first entry of that name and kind (a folder unless it is the
/// last component), or into a new entry at the end.
pub open spec fn insert_file(nodes: Seq<NodeModel>, comps: Seq<Seq<char>>, base: Seq<char>) -> Seq<NodeModel>
    decreases comps.len(),
{
    if comps.len() == 0 {
        nodes
    } else {
        let name = comps[0];
        let is_dir = comps.len() > 1;
        let path = joined_path_of(base, name);
        match first_match_from(nodes, name, is_dir, 0) {
            Some(k) => nodes.update(
                k,
                NodeModel {
                    children: insert_file(nodes[k].children, comps.drop_first(), path),
                    ..nodes[k]
                },
            ),
            None => nodes.push(
                NodeModel {
                    name,
                    path,
                    is_dir,
                    children: insert_file(Seq::empty(), comps.drop_first(), path),
                },
            ),
        }
    }
}

/// The entries of `root` after adding, in order, each of `files` that lies
/// below `root`.
pub open spec fn files_tree(files: Seq<Seq<char>>, root: Seq<char>) -> Seq<NodeModel>
    decreases files.len(),
{
    if files.len() == 0 {
        Seq::empty()
    } else {
        let prev = files_tree(files.drop_last(), root);
        match relative_components_of(files.last(), root) {
            Some(c) => insert_file(prev, c, root),
            None => prev,
        }
    }
}

/// Adds the file with components `comps[i..]` below the folder at `base`.
fn insert_components(nodes: &mut Vec<TreeNode>, comps: &Vec<String>, i: usize, base: &String)
    requires
        i <= comps@.len(),
    ensures
        views(final(nodes)@) == insert_file(views(old(nodes)@), strs(comps@).skip(i as int), base@),
    decreases comps@.len() - i,
{
    let ghost cs = strs(comps@).skip(i as int);
    if i == comps.len() {
        assert(cs.len() == 0);
        return;
    }
    assert(cs[0] == comps@[i as int]@);
    assert(cs.drop_first() =~= strs(comps@).skip(i + 1));
    let name = &comps[i];
    let is_dir = i + 1 < comps.len();
    let path = join_path(base.as_str(), name.as_str());
    let ghost old_views = views(nodes@);
    let mut k: usize = 0;
    while k < nodes.len()
        invariant
            k <= nodes@.len(),
            views(nodes@) == old_views,
            first_match_from(old_views, name@, is_dir, 0) == first_match_from(old_views, name@, is_dir, k as int),
        ensures
            k <= nodes@.len(),
            views(nodes@) == old_views,
            k < nodes@.len() ==> first_match_from(old_views, name@, is_dir, 0) == Some(k as int),
            k == nodes@.len() ==> first_match_from(old_views, name@, is_dir, 0) is None,
        decreases nodes@.len() - k,
    {
        assert(old_views[k as int] == nodes@[k as int]@);
        if nodes[k].name == *name && nodes[k].is_dir == is_dir {
            break;
        }
        k = k + 1;
    }
    if k < nodes.len() {
        let mut child = nodes.remove(k);
        proof {
            lemma_children_view(child);
        }
        let ghost old_child = child@;
        insert_components(&mut child.children, comps, i + 1, &path);
        proof {
            lemma_children_view(child);
        }
        nodes.insert(k, child);
        proof {
            assert(views(nodes@) =~= old_views.update(
                k as int,
                NodeModel {
                    children: insert_file(old_child.children, cs.drop_first(), path@),
                    ..old_child
                },
            ));
        }
    } else {
        let mut child = TreeNode {
            name: name.clone(),
            path: path.clone(),
            is_dir,
            children: Vec::new(),
        };
        proof {
            lemma_children_view(child);
            assert(views(child.children@) =~= Seq::<NodeModel>::empty());
        }
        insert_components(&mut child.children, comps, i + 1, &path);
        proof {
            lemma_children_view(child);
        }
        nodes.push(child);
        proof {
            assert(views(nodes@) =~= old_views.push(child@));
        }
    }
}

// ---------------------------------------------------------------------------
// Order
// ---------------------------------------------------------------------------

/// Where one entry goes relative to another.
#[derive(Clone, Copy, Debug, PartialEq, Eq, Structural)]
pub enum Rank {
    Before,
    Same,
    After,
}

/// `a` comes before `b` in lexicographic order of code points (the order of
/// `String`'s `Ord`, since UTF-8 keeps code-point order).
pub open spec fn lex_before(a: Seq<char>, b: Seq<char>) -> bool
    decreases a.len(),
{
    if a.len() == 0 {
        b.len() > 0
    } else if b.len() == 0 {
        false
    } else if (a[0] as int) != (b[0] as int) {
        (a[0] as int) < (b[0] as int)
    } else {
        lex_before(a.drop_first(), b.drop_first())
    }
}

/// The rank of `a` against `b`: folders before files, then names in
/// lexicographic order of their lower-case forms.
pub open spec fn rank_of(a: NodeModel, b: NodeModel) -> Rank {
    if a.is_dir && !b.is_dir {
        Rank::Before
    } else if !a.is_dir && b.is_dir {
        Rank::After
    } else {
        let la = lowercase_of(a.name);
        let lb = lowercase_of(b.name);
        if lex_before(la, lb) {
            Rank::Before
        } else if lex_before(lb, la) {
            Rank::After
        } else {
            Rank::Same
        }
    }
}

/// The code point of `c`.
fn code_point(c: char) -> (r: u32)
    ensures
        r as int == c as int,
{
    c as u32
}

/// The lexicographic rank of `a` against `b`.
fn lex_rank(a: &Vec<char>, b: &Vec<char>) -> (r: Rank)
    ensures
        r == (if lex_before(a@, b@) {
            Rank::Before
        } else if lex_before(b@, a@) {
            Rank::After
        } else {
            Rank::Same
        }),
{
    let mut i: usize = 0;
    assert(a@.skip(0) =~= a@);
    assert(b@.skip(0) =~= b@);
    while i < a.len() && i < b.len()
        invariant
            i <= a@.len(),
            i <= b@.len(),
            lex_before(a@, b@) == lex_before(a@.skip(i as int), b@.skip(i as int)),
            lex_before(b@, a@) == lex_before(b@.skip(i as int), a@.skip(i as int)),
        decreases a@.len() - i,
    {
        let ghost sa = a@.skip(i as int);
        let ghost sb = b@.skip(i as int);
        assert(sa[0] == a@[i as int]);
        assert(sb[0] == b@[i as int]);
        assert(sa.drop_first() =~= a@.skip(i + 1));
        assert(sb.drop_first() =~= b@.skip(i + 1));
        let cx = a[i];
        let cy = b[i];
        let x = code_point(cx);
        let y = code_point(cy);
        if x != y {
            if x < y {
                assert(lex_before(sa, sb));
                assert(!lex_before(sb, sa));
                return Rank::Before;
            } else {
                assert(y < x);
                assert(lex_before(sb, sa));
                assert(!lex_before(sa, sb));
                return Rank::After;
            }
        }
        i = i + 1;
    }
    if i < b.len() {
        Rank::Before
    } else if i < a.len() {
        Rank::After
    } else {
        Rank::Same
    }
}

/// The rank of `a` against `b` (see `rank_of`).
pub fn node_rank(a: &TreeNode, b: &TreeNode) -> (r: Rank)
    ensures
        r == rank_of(a@, b@),
{
    if a.is_dir && !b.is_dir {
        Rank::Before
    } else if !a.is_dir && b.is_dir {
        Rank::After
    } else {
        let la = to_lowercase(a.name.as_str());
        let lb = to_lowercase(b.name.as_str());
        let va = chars_of(la.as_str());
        let vb = chars_of(lb.as_str());
        lex_rank(&va, &vb)
    }
}

// ---------------------------------------------------------------------------
// Sorting
// ---------------------------------------------------------------------------

/// `s` with `x` inserted after every entry that does not rank after it.
pub open spec fn insert_sorted(s: Seq<NodeModel>, x: NodeModel) -> Seq<NodeModel>
    decreases s.len(),
{
    if s.len() > 0 && rank_of(s.last(), x) == Rank::After {
        insert_sorted(s.drop_last(), x).push(s.last())
    } else {
        s.push(x)
    }
}

/// The entries `s` in stable order of rank: each entry, in turn, is inserted
/// after every earlier entry that does not rank after it.
pub open spec fn sort_nodes(s: Seq<NodeModel>) -> Seq<NodeModel>
    decreases s.len(),
{
    if s.len() == 0 {
        Seq::empty()
    } else {
        insert_sorted(sort_nodes(s.drop_last()), s.last())
    }
}

/// `ms` with every folder's entries sorted, at every depth.
pub open spec fn with_sorted_children(ms: Seq<NodeModel>) -> Seq<NodeModel>
    decreases ms, 0int,
{
    Seq::new(
        ms.len(),
        |i: int|
            {
                if 0 <= i < ms.len() {
                    proof {
                        assert(decreases_to!(ms => ms[i]));
                        assert(decreases_to!(ms[i] => ms[i].children));
                    }
                    NodeModel { children: sort_forest(ms[i].children), ..ms[i] }
                } else {
                    ms[i]
                }
            },
    )
}

/// The forest `ms` sorted at every depth: folders first, then by lower-case
/// name, keeping the given order among equals.
pub open spec fn sort_forest(ms: Seq<NodeModel>) -> Seq<NodeModel>
    decreases ms, 1int,
{
    sort_nodes(with_sorted_children(ms))
}

proof fn lemma_insert_sorted_split(s: Seq<NodeModel>, x: NodeModel, j: int)
    requires
        0 <= j <= s.len(),
        forall|m: int| j <= m < s.len() ==> rank_of(#[trigger] s[m], x) == Rank::After,
    ensures
        insert_sorted(s, x) == insert_sorted(s.take(j), x) + s.skip(j),
    decreases s.len() - j,
{
    if j == s.len() {
        assert(s.take(j) =~= s);
        assert(s.skip(j) =~= Seq::<NodeModel>::empty());
        assert(insert_sorted(s, x) + Seq::<NodeModel>::empty() =~= insert_sorted(s, x));
    } else {
        lemma_insert_sorted_split(s, x, j + 1);
        let t = s.take(j + 1);
        assert(t.last() == s[j]);
        assert(t.drop_last() =~= s.take(j));
        assert(insert_sorted(t, x) == insert_sorted(s.take(j), x).push(s[j]));
        assert(insert_sorted(s.take(j), x).push(s[j]) + s.skip(j + 1) =~= insert_sorted(
            s.take(j),
            x,
        ) + s.skip(j));
    }
}

/// Inserts `x` into `sorted` after every entry that does not rank after it.
fn insert_in_order(sorted: &mut Vec<TreeNode>, x: TreeNode)
    ensures
        views(final(sorted)@) == insert_sorted(views(old(sorted)@), x@),
{
    let ghost s = views(sorted@);
    let mut j = sorted.len();
    loop
        invariant
            j <= sorted@.len(),
            views(sorted@) == s,
            forall|m: int| j <= m < s.len() ==> rank_of(#[trigger] s[m], x@) == Rank::After,
        ensures
            j <= sorted@.len(),
            views(sorted@) == s,
            forall|m: int| j <= m < s.len() ==> rank_of(#[trigger] s[m], x@) == Rank::After,
            j == 0 || rank_of(s[j - 1], x@) != Rank::After,
        decreases j,
    {
        if j == 0 {
            break;
        }
        assert(s[j - 1] == sorted@[j - 1]@);
        if node_rank(&sorted[j - 1], &x) != Rank::After {
            break;
        }
        j = j - 1;
    }
    proof {
        lemma_insert_sorted_split(s, x@, j as int);
        let t = s.take(j as int);
        if j > 0 {
            assert(t.last() == s[j - 1]);
        }
        assert(insert_sorted(t, x@) == t.push(x@));
    }
    sorted.insert(j, x);
    assert(views(sorted@) =~= s.take(j as int).push(x@) + s.skip(j as int));
}

/// The forest `nodes` sorted at every depth (see `sort_forest`).
pub fn sort_tree(nodes: Vec<TreeNode>) -> (r: Vec<TreeNode>)
    ensures
        views(r@) == sort_forest(views(nodes@)),
    decreases views(nodes@),
{
    let ghost orig = views(nodes@);
    let ghost mapped = with_sorted_children(orig);
    let mut input = nodes;
    let mut sorted: Vec<TreeNode> = Vec::new();
    let mut k: usize = 0;
    let n = input.len();
    assert(orig.skip(0) =~= orig);
    assert(mapped.take(0) =~= Seq::<NodeModel>::empty());
    while input.len() > 0
        invariant
            orig == views(nodes@),
            orig.len() == n,
            k <= orig.len(),
            input@.len() + k == orig.len(),
            mapped == with_sorted_children(orig),
            views(input@) == orig.skip(k as int),
            views(sorted@) == sort_nodes(mapped.take(k as int)),
        decreases input@.len(),
    {
        let ghost before = views(input@);
        let ghost old_input = input@;
        assert(before[0] == orig[k as int]);
        assert(before[0] == input@[0]@);
        let x = input.remove(0);
        assert(x@ == orig[k as int]);
        assert forall|m: int| 0 <= m < input@.len() implies #[trigger] views(input@)[m] == orig.skip(
            k + 1,
        )[m] by {
            assert(input@[m] == old_input[m + 1]);
            assert(before[m + 1] == old_input[m + 1]@);
        }
        assert(views(input@) =~= orig.skip(k + 1));
        let TreeNode { name, path, is_dir, children } = x;
        proof {
            lemma_children_view(x);
            assert(decreases_to!(orig => orig[k as int]));
            assert(decreases_to!(orig[k as int] => orig[k as int].children));
            assert(views(children@) == orig[k as int].children);
            assert(decreases_to!(views(nodes@) => views(children@)));
        }
        let kids = sort_tree(children);
        let y = TreeNode { name, path, is_dir, children: kids };
        proof {
            lemma_children_view(y);
            assert(y@ == mapped[k as int]);
            assert(mapped.take(k + 1).drop_last() =~= mapped.take(k as int));
        }
        insert_in_order(&mut sorted, y);
        k = k + 1;
    }
    assert(mapped.take(k as int) =~= mapped);
    sorted
}

/// The file tree of `files` below `root`: each file that lies below `root`
/// is added under folders named after its path components (see
/// `files_tree`), and the result is sorted at every depth, folders first,
/// then by lower-case name.
pub fn build_tree(files: &Vec<String>, root: &str) -> (r: Vec<TreeNode>)
    ensures
        views(r@) == sort_forest(files_tree(strs(files@), root@)),
{
    let root_path = chars_of(root);
    let base = crate::text::string_of(&root_path, 0, root_path.len());
    assert(root_path@.subrange(0, root_path@.len() as int) =~= root@);
    let mut nodes: Vec<TreeNode> = Vec::new();
    let mut i: usize = 0;
    while i < files.len()
        invariant
            i <= files@.len(),
            base@ == root@,
            views(nodes@) == files_tree(strs(files@).take(i as int), root@),
        decreases files@.len() - i,
    {
        let ghost fs = strs(files@).take(i + 1);
        assert(fs.drop_last() =~= strs(files@).take(i as int));
        assert(fs.last() == files@[i as int]@);
        match strip_root(files[i].as_str(), root) {
            Some(rel) => {
                let comps = path_components(rel.as_str());
                assert(strs(comps@).skip(0) =~= strs(comps@));
                insert_components(&mut nodes, &comps, 0, &base);
            },
            None => {},
        }
        i = i + 1;
    }
    assert(strs(files@).take(files@.len() as int) =~= strs(files@));
    sort_tree(nodes)
}

// ---------------------------------------------------------------------------
// Search
// ---------------------------------------------------------------------------

/// Whether the path `file` matches the search `query`: the lower-case form of
/// the query occurs in the lower-case form of the path.
pub open spec fn matches_query(file: Seq<char>, query: Seq<char>) -> bool {
    find(lowercase_of(file), lowercase_of(query)) is Some
}

/// The files, in order, that match `query`.
pub open spec fn filtered_files(files: Seq<Seq<char>>, query: Seq<char>) -> Seq<Seq<char>> {
    files.filter(|f: Seq<char>| matches_query(f, query))
}

/// The files of `files`, in order, whose paths contain `query` when both are
/// lower-cased.
pub fn filter_files(files: &Vec<String>, query: &str) -> (r: Vec<String>)
    ensures
        strs(r@) == filtered_files(strs(files@), query@),
{
    let lower_query = to_lowercase(query);
    let q = chars_of(lower_query.as_str());
    let mut out: Vec<String> = Vec::new();
    let mut i: usize = 0;
    let ghost pred = |f: Seq<char>| matches_query(f, query@);
    assert(strs(files@).take(0) =~= Seq::<Seq<char>>::empty());
    assert(strs(out@) =~= Seq::<Seq<char>>::empty().filter(pred));
    while i < files.len()
        invariant
            i <= files@.len(),
            q@ == lowercase_of(query@),
            pred == (|f: Seq<char>| matches_query(f, query@)),
            strs(out@) == strs(files@).take(i as int).filter(pred),
        decreases files@.len() - i,
    {
        let lower = to_lowercase(files[i].as_str());
        let v = chars_of(lower.as_str());
        let keep = contains_chars(&v, &q);
        proof {
            let fs = strs(files@);
            assert(fs.take(i + 1) =~= fs.take(i as int).push(fs[i as int]));
            fs.take(i as int).lemma_filter_push(fs[i as int], pred);
            assert(fs[i as int] == files@[i as int]@);
        }
        if keep {
            let ghost old_out = out@;
            out.push(files[i].clone());
            assert(strs(out@) =~= strs(old_out).push(files@[i as int]@));
        }
        i = i + 1;
    }
    assert(strs(files@).take(files@.len() as int) =~= strs(files@));
    out
}

/// A path matches a search exactly when the lower-case query occurs at some
/// position of the lower-case path, an occurrence that ends at the path's
/// last character included.
pub proof fn lemma_matches_query_occurs(file: Seq<char>, query: Seq<char>)
    ensures
        matches_query(file, query) <==> exists|k: int|
            0 <= k && k + lowercase_of(query).len() <= lowercase_of(file).len()
                && #[trigger] lowercase_of(file).subrange(k, k + lowercase_of(query).len())
                == lowercase_of(query),
{
    let lf = lowercase_of(file);
    let lq = lowercase_of(query);
    crate::text::lemma_find_from(lf, lq, 0);
    if exists|k: int| 0 <= k && k + lq.len() <= lf.len() && #[trigger] lf.subrange(k, k + lq.len()) == lq {
        let k = choose|k: int| 0 <= k && k + lq.len() <= lf.len() && #[trigger] lf.subrange(k, k + lq.len()) == lq;
        assert(crate::text::matches_at(lf, lq, k));
    }
}

/// A path matches every query whose lower-case form is a suffix of the
/// path's lower-case form, such as its own file name.
pub proof fn lemma_matches_query_suffix(file: Seq<char>, query: Seq<char>, m: int)
    requires
        0 <= m <= lowercase_of(file).len(),
        lowercase_of(query) == lowercase_of(file).skip(m),
    ensures
        matches_query(file, query),
{
    let lf = lowercase_of(file);
    lemma_matches_query_occurs(file, query);
    assert(lf.subrange(m, m + lowercase_of(query).len()) =~= lowercase_of(query));
}

/// The search keeps, in order, exactly the files whose lower-case path holds
/// the lower-case query somewhere.
pub proof fn lemma_filtered_files_occurs(files: Seq<Seq<char>>, query: Seq<char>)
    ensures
        filtered_files(files, query) == files.filter(
            |f: Seq<char>|
                exists|k: int|
                    0 <= k && k + lowercase_of(query).len() <= lowercase_of(f).len()
                        && #[trigger] lowercase_of(f).subrange(k, k + lowercase_of(query).len())
                        == lowercase_of(query),
        ),
{
    let p1 = |f: Seq<char>| matches_query(f, query);
    let p2 = |f: Seq<char>|
        exists|k: int|
            0 <= k && k + lowercase_of(query).len() <= lowercase_of(f).len()
                && #[trigger] lowercase_of(f).subrange(k, k + lowercase_of(query).len())
                == lowercase_of(query);
    assert forall|f: Seq<char>| #[trigger] p1(f) == p2(f) by {
        lemma_matches_query_occurs(f, query);
    }
    assert(p1 =~= p2);
}

// ---------------------------------------------------------------------------
// Laws of the order and of sorting
// ---------------------------------------------------------------------------

proof fn lemma_lex_asymmetric(a: Seq<char>, b: Seq<char>)
    ensures
        !(lex_before(a, b) && lex_before(b, a)),
        !lex_before(a, a),
    decreases a.len(),
{
    if a.len() > 0 && b.len() > 0 && (a[0] as int) == (b[0] as int) {
        lemma_lex_asymmetric(a.drop_first(), b.drop_first());
    }
    if a.len() > 0 {
        lemma_lex_asymmetric(a.drop_first(), a.drop_first());
    }
}

proof fn lemma_lex_total(a: Seq<char>, b: Seq<char>)
    ensures
        lex_before(a, b) || lex_before(b, a) || a == b,
    decreases a.len(),
{
    if a.len() == 0 {
        if b.len() == 0 {
            assert(a =~= b);
        }
    } else if b.len() > 0 && (a[0] as int) == (b[0] as int) {
        lemma_lex_total(a.drop_first(), b.drop_first());
        assert(a[0] == b[0]);
        if a.drop_first() == b.drop_first() {
            assert(a =~= seq![a[0]] + a.drop_first());
            assert(b =~= seq![b[0]] + b.drop_first());
        }
    }
}

proof fn lemma_lex_transitive(a: Seq<char>, b: Seq<char>, c: Seq<char>)
    requires
        lex_before(a, b),
        lex_before(b, c),
    ensures
        lex_before(a, c),
    decreases a.len(),
{
    if a.len() > 0 && b.len() > 0 && c.len() > 0 && (a[0] as int) == (b[0] as int) && (b[0] as int)
        == (c[0] as int) {
        lemma_lex_transitive(a.drop_first(), b.drop_first(), c.drop_first());
    }
}

proof fn lemma_lex_first_difference(a: Seq<char>, b: Seq<char>, i: int)
    requires
        0 <= i <= a.len(),
        i <= b.len(),
        a.take(i) == b.take(i),
        (i == a.len() && i < b.len()) || (i < a.len() && i < b.len() && (a[i] as int) < (
        b[i] as int)),
    ensures
        lex_before(a, b),
    decreases i,
{
    if i > 0 {
        assert(a[0] == a.take(i)[0]);
        assert(b[0] == b.take(i)[0]);
        assert(a.drop_first().take(i - 1) =~= a.take(i).drop_first());
        assert(b.drop_first().take(i - 1) =~= b.take(i).drop_first());
        lemma_lex_first_difference(a.drop_first(), b.drop_first(), i - 1);
    }
}

/// Folders come before files; entries of one kind are ordered by their
/// lower-case names, character by character: where the names first differ,
/// the smaller code point comes first, and a name that is a proper prefix of
/// the other comes first. The names' lengths play no other part.
pub proof fn lemma_rank_first_difference(a: NodeModel, b: NodeModel, i: int)
    ensures
        a.is_dir && !b.is_dir ==> rank_of(a, b) == Rank::Before,
        ({
            let la = lowercase_of(a.name);
            let lb = lowercase_of(b.name);
            a.is_dir == b.is_dir && 0 <= i <= la.len() && i <= lb.len() && la.take(i) == lb.take(i)
                && ((i == la.len() && i < lb.len()) || (i < la.len() && i < lb.len() && (
            la[i] as int) < (lb[i] as int))) ==> rank_of(a, b) == Rank::Before && rank_of(b, a)
                == Rank::After
        }),
{
    let la = lowercase_of(a.name);
    let lb = lowercase_of(b.name);
    if a.is_dir == b.is_dir && 0 <= i <= la.len() && i <= lb.len() && la.take(i) == lb.take(i) && ((
    i == la.len() && i < lb.len()) || (i < la.len() && i < lb.len() && (la[i] as int) < (
    lb[i] as int))) {
        lemma_lex_first_difference(la, lb, i);
        lemma_lex_asymmetric(la, lb);
    }
}

/// `a` does not rank after `b`.
pub open spec fn rank_le(a: NodeModel, b: NodeModel) -> bool {
    rank_of(a, b) != Rank::After
}

/// The rank is a total preorder: `a` ranks after `b` exactly when `b` ranks
/// before `a`, ranks are `Same` exactly for entries of the same kind whose
/// lower-case names are equal, and not ranking after is transitive.
pub proof fn lemma_rank_total_preorder(a: NodeModel, b: NodeModel, c: NodeModel)
    ensures
        rank_of(a, b) == Rank::After <==> rank_of(b, a) == Rank::Before,
        rank_of(a, b) == Rank::Same <==> (a.is_dir == b.is_dir && lowercase_of(a.name)
            == lowercase_of(b.name)),
        rank_of(a, a) == Rank::Same,
        rank_le(a, b) && rank_le(b, c) ==> rank_le(a, c),
{
    let la = lowercase_of(a.name);
    let lb = lowercase_of(b.name);
    let lc = lowercase_of(c.name);
    lemma_lex_asymmetric(la, lb);
    lemma_lex_asymmetric(lb, lc);
    lemma_lex_asymmetric(la, lc);
    lemma_lex_total(la, lb);
    lemma_lex_total(lb, lc);
    lemma_lex_total(la, lc);
    if lex_before(la, lb) && lex_before(lb, lc) {
        lemma_lex_transitive(la, lb, lc);
    }
}

/// `s` is in order of rank.
pub open spec fn level_sorted(s: Seq<NodeModel>) -> bool {
    forall|i: int, j: int| 0 <= i < j < s.len() ==> rank_le(#[trigger] s[i], #[trigger] s[j])
}

proof fn lemma_insert_sorted_contents(s: Seq<NodeModel>, x: NodeModel)
    ensures
        insert_sorted(s, x).to_multiset() == s.to_multiset().insert(x),
        insert_sorted(s, x).len() == s.len() + 1,
    decreases s.len(),
{
    broadcast use vstd::seq_lib::group_to_multiset_ensures;

    if s.len() > 0 && rank_of(s.last(), x) == Rank::After {
        lemma_insert_sorted_contents(s.drop_last(), x);
        assert(s =~= s.drop_last().push(s.last()));
        assert(insert_sorted(s, x).to_multiset() =~= s.to_multiset().insert(x));
    }
}

proof fn lemma_insert_sorted_sorted(s: Seq<NodeModel>, x: NodeModel)
    requires
        level_sorted(s),
    ensures
        level_sorted(insert_sorted(s, x)),
    decreases s.len(),
{
    broadcast use vstd::seq_lib::group_to_multiset_ensures;

    let r = insert_sorted(s, x);
    if s.len() > 0 && rank_of(s.last(), x) == Rank::After {
        let t = s.drop_last();
        let last = s.last();
        assert(level_sorted(t));
        lemma_insert_sorted_sorted(t, x);
        lemma_insert_sorted_contents(t, x);
        let u = insert_sorted(t, x);
        assert forall|i: int, j: int| 0 <= i < j < r.len() implies rank_le(
            #[trigger] r[i],
            #[trigger] r[j],
        ) by {
            if j == r.len() - 1 {
                assert(r[j] == last);
                assert(r[i] == u[i]);
                assert(u.to_multiset().count(u[i]) > 0);
                if u[i] == x {
                    lemma_rank_total_preorder(last, x, x);
                } else {
                    assert(t.to_multiset().count(u[i]) > 0);
                    assert(t.contains(u[i]));
                    let k = choose|k: int| 0 <= k < t.len() && t[k] == u[i];
                    assert(s[k] == t[k]);
                    assert(rank_le(s[k], s[s.len() - 1]));
                }
            } else {
                assert(r[i] == u[i]);
                assert(r[j] == u[j]);
            }
        }
    } else {
        assert forall|i: int, j: int| 0 <= i < j < r.len() implies rank_le(
            #[trigger] r[i],
            #[trigger] r[j],
        ) by {
            if j == r.len() - 1 {
                assert(r[j] == x);
                if i < s.len() - 1 {
                    assert(rank_le(s[i], s[s.len() - 1]));
                    lemma_rank_total_preorder(s[i], s[s.len() - 1], x);
                }
            } else {
                assert(r[i] == s[i]);
                assert(r[j] == s[j]);
            }
        }
    }
}

/// `sort_nodes` puts entries in order of rank, as a rearrangement of its input.
pub proof fn lemma_sort_nodes_sorted(s: Seq<NodeModel>)
    ensures
        level_sorted(sort_nodes(s)),
        sort_nodes(s).to_multiset() == s.to_multiset(),
        sort_nodes(s).len() == s.len(),
    decreases s.len(),
{
    broadcast use vstd::seq_lib::group_to_multiset_ensures;

    if s.len() > 0 {
        lemma_sort_nodes_sorted(s.drop_last());
        lemma_insert_sorted_sorted(sort_nodes(s.drop_last()), s.last());
        lemma_insert_sorted_contents(sort_nodes(s.drop_last()), s.last());
        assert(s =~= s.drop_last().push(s.last()));
    } else {
        assert(s.to_multiset() =~= vstd::multiset::Multiset::empty());
        assert(sort_nodes(s).to_multiset() =~= vstd::multiset::Multiset::empty());
    }
}

/// The entries of `s` that rank the same as `y`, in order.
pub open spec fn same_rank_as(s: Seq<NodeModel>, y: NodeModel) -> Seq<NodeModel> {
    s.filter(|n: NodeModel| rank_of(n, y) == Rank::Same)
}

proof fn lemma_insert_sorted_stable(s: Seq<NodeModel>, x: NodeModel, y: NodeModel)
    ensures
        same_rank_as(insert_sorted(s, x), y) == same_rank_as(s.push(x), y),
    decreases s.len(),
{
    let p = |n: NodeModel| rank_of(n, y) == Rank::Same;
    if s.len() > 0 && rank_of(s.last(), x) == Rank::After {
        let t = s.drop_last();
        let last = s.last();
        lemma_insert_sorted_stable(t, x, y);
        insert_sorted(t, x).lemma_filter_push(last, p);
        t.lemma_filter_push(x, p);
        t.lemma_filter_push(last, p);
        t.push(last).lemma_filter_push(x, p);
        t.push(x).lemma_filter_push(last, p);
        assert(t.push(last) =~= s);
        lemma_rank_total_preorder(last, y, x);
        lemma_rank_total_preorder(x, y, last);
        lemma_rank_total_preorder(y, x, last);
        lemma_rank_total_preorder(last, x, y);
        lemma_rank_total_preorder(y, last, x);
        lemma_rank_total_preorder(x, last, y);
        if p(x) && p(last) {
            assert(false);
        }
    }
}

/// `sort_nodes` is stable: for any entry `y`, the entries that rank the same
/// as `y` keep their relative order.
pub proof fn lemma_sort_nodes_stable(s: Seq<NodeModel>, y: NodeModel)
    ensures
        same_rank_as(sort_nodes(s), y) == same_rank_as(s, y),
    decreases s.len(),
{
    if s.len() > 0 {
        lemma_sort_nodes_stable(s.drop_last(), y);
        lemma_insert_sorted_stable(sort_nodes(s.drop_last()), s.last(), y);
        let p = |n: NodeModel| rank_of(n, y) == Rank::Same;
        sort_nodes(s.drop_last()).lemma_filter_push(s.last(), p);
        s.drop_last().lemma_filter_push(s.last(), p);
        assert(s.drop_last().push(s.last()) =~= s);
    }
}

/// `ms` is in order of rank, and so is every folder's entries, at every depth.
pub open spec fn forest_sorted(ms: Seq<NodeModel>) -> bool
    decreases ms,
{
    &&& level_sorted(ms)
    &&& forall|i: int| 0 <= i < ms.len() ==> forest_sorted(#[trigger] ms[i].children)
}

/// `sort_forest` orders every level of the tree: folders first, then by
/// lower-case name.
pub proof fn lemma_sort_forest_sorted(ms: Seq<NodeModel>)
    ensures
        forest_sorted(sort_forest(ms)),
    decreases ms,
{
    broadcast use vstd::seq_lib::group_to_multiset_ensures;

    let w = with_sorted_children(ms);
    let r = sort_forest(ms);
    lemma_sort_nodes_sorted(w);
    assert forall|i: int| 0 <= i < r.len() implies forest_sorted(#[trigger] r[i].children) by {
        assert(r.to_multiset().count(r[i]) > 0);
        assert(w.contains(r[i]));
        let k = choose|k: int| 0 <= k < w.len() && w[k] == r[i];
        assert(w[k].children == sort_forest(ms[k].children));
        assert(decreases_to!(ms => ms[k]));
        assert(decreases_to!(ms[k] => ms[k].children));
        lemma_sort_forest_sorted(ms[k].children);
    }
}

/// A built tree is sorted at every depth.
pub proof fn lemma_build_tree_sorted(files: Seq<Seq<char>>, root: Seq<char>)
    ensures
        forest_sorted(sort_forest(files_tree(files, root))),
{
    lemma_sort_forest_sorted(files_tree(files, root));
}

/// `a` and `b` have the same name and kind.
pub open spec fn same_entry(a: NodeModel, b: NodeModel) -> bool {
    a.name == b.name && a.is_dir == b.is_dir
}

/// No two entries of `ms` have the same name and kind.
pub open spec fn level_distinct(ms: Seq<NodeModel>) -> bool {
    forall|i: int, j: int| 0 <= i < j < ms.len() ==> !same_entry(#[trigger] ms[i], #[trigger] ms[j])
}

/// No folder, at any depth, holds two entries of the same name and kind.
pub open spec fn forest_distinct(ms: Seq<NodeModel>) -> bool
    decreases ms,
{
    &&& level_distinct(ms)
    &&& forall|i: int| 0 <= i < ms.len() ==> forest_distinct(#[trigger] ms[i].children)
}

proof fn lemma_first_match_none(nodes: Seq<NodeModel>, name: Seq<char>, is_dir: bool, i: int)
    requires
        0 <= i,
        first_match_from(nodes, name, is_dir, i) is None,
    ensures
        forall|j: int| i <= j < nodes.len() ==> !(#[trigger] nodes[j].name == name && nodes[j].is_dir == is_dir),
    decreases nodes.len() - i,
{
    if i < nodes.len() {
        lemma_first_match_none(nodes, name, is_dir, i + 1);
    }
}

proof fn lemma_insert_file_distinct(nodes: Seq<NodeModel>, comps: Seq<Seq<char>>, base: Seq<char>)
    requires
        forest_distinct(nodes),
    ensures
        forest_distinct(insert_file(nodes, comps, base)),
    decreases comps.len(),
{
    if comps.len() > 0 {
        let name = comps[0];
        let is_dir = comps.len() > 1;
        let path = joined_path_of(base, name);
        let r = insert_file(nodes, comps, base);
        match first_match_from(nodes, name, is_dir, 0) {
            Some(k) => {
                lemma_first_match_from(nodes, name, is_dir, 0);
                assert(forest_distinct(nodes[k].children));
                lemma_insert_file_distinct(nodes[k].children, comps.drop_first(), path);
                assert forall|i: int, j: int| 0 <= i < j < r.len() implies !same_entry(
                    #[trigger] r[i],
                    #[trigger] r[j],
                ) by {
                    assert(same_entry(r[i], nodes[i]));
                    assert(same_entry(r[j], nodes[j]));
                    assert(!same_entry(nodes[i], nodes[j]));
                }
                assert forall|i: int| 0 <= i < r.len() implies forest_distinct(
                    #[trigger] r[i].children,
                ) by {
                    if i != k {
                        assert(r[i] == nodes[i]);
                    }
                }
            },
            None => {
                lemma_first_match_none(nodes, name, is_dir, 0);
                assert(forest_distinct(Seq::<NodeModel>::empty()));
                lemma_insert_file_distinct(Seq::empty(), comps.drop_first(), path);
                assert forall|i: int, j: int| 0 <= i < j < r.len() implies !same_entry(
                    #[trigger] r[i],
                    #[trigger] r[j],
                ) by {
                    if j == nodes.len() {
                        assert(r[i] == nodes[i]);
                    } else {
                        assert(r[i] == nodes[i]);
                        assert(r[j] == nodes[j]);
                    }
                }
                assert forall|i: int| 0 <= i < r.len() implies forest_distinct(
                    #[trigger] r[i].children,
                ) by {
                    if i < nodes.len() {
                        assert(r[i] == nodes[i]);
                    }
                }
            },
        }
    }
}

/// The tree of any files holds, in each folder, at most one entry of a
/// given name and kind.
pub proof fn lemma_files_tree_distinct(files: Seq<Seq<char>>, root: Seq<char>)
    ensures
        forest_distinct(files_tree(files, root)),
    decreases files.len(),
{
    if files.len() > 0 {
        lemma_files_tree_distinct(files.drop_last(), root);
        match relative_components_of(files.last(), root) {
            Some(c) => lemma_insert_file_distinct(files_tree(files.drop_last(), root), c, root),
            None => {},
        }
    }
}

proof fn lemma_insert_sorted_distinct(s: Seq<NodeModel>, x: NodeModel)
    requires
        level_distinct(s.push(x)),
    ensures
        level_distinct(insert_sorted(s, x)),
    decreases s.len(),
{
    broadcast use vstd::seq_lib::group_to_multiset_ensures;

    let r = insert_sorted(s, x);
    let sx = s.push(x);
    if s.len() > 0 && rank_of(s.last(), x) == Rank::After {
        let t = s.drop_last();
        let last = s.last();
        assert forall|i: int, j: int| 0 <= i < j < t.push(x).len() implies !same_entry(
            #[trigger] t.push(x)[i],
            #[trigger] t.push(x)[j],
        ) by {
            if j == t.len() {
                assert(t.push(x)[i] == sx[i]);
                assert(t.push(x)[j] == sx[s.len() as int]);
            } else {
                assert(t.push(x)[i] == sx[i]);
                assert(t.push(x)[j] == sx[j]);
            }
        }
        lemma_insert_sorted_distinct(t, x);
        lemma_insert_sorted_contents(t, x);
        let u = insert_sorted(t, x);
        assert forall|i: int, j: int| 0 <= i < j < r.len() implies !same_entry(
            #[trigger] r[i],
            #[trigger] r[j],
        ) by {
            if j == r.len() - 1 {
                assert(r[j] == last);
                assert(r[i] == u[i]);
                assert(u.to_multiset().count(u[i]) > 0);
                if u[i] == x {
                    assert(sx[s.len() - 1] == last);
                    assert(sx[s.len() as int] == x);
                } else {
                    assert(t.to_multiset().count(u[i]) > 0);
                    assert(t.contains(u[i]));
                    let k = choose|k: int| 0 <= k < t.len() && t[k] == u[i];
                    assert(sx[k] == t[k]);
                    assert(sx[s.len() - 1] == last);
                }
            } else {
                assert(r[i] == u[i]);
                assert(r[j] == u[j]);
            }
        }
    }
}

proof fn lemma_sort_nodes_distinct(s: Seq<NodeModel>)
    requires
        level_distinct(s),
    ensures
        level_distinct(sort_nodes(s)),
    decreases s.len(),
{
    broadcast use vstd::seq_lib::group_to_multiset_ensures;

    if s.len() > 0 {
        let t = s.drop_last();
        let x = s.last();
        assert(level_distinct(t)) by {
            assert forall|i: int, j: int| 0 <= i < j < t.len() implies !same_entry(
                #[trigger] t[i],
                #[trigger] t[j],
            ) by {
                assert(t[i] == s[i] && t[j] == s[j]);
            }
        }
        lemma_sort_nodes_distinct(t);
        lemma_sort_nodes_sorted(t);
        let st = sort_nodes(t);
        assert forall|i: int, j: int| 0 <= i < j < st.push(x).len() implies !same_entry(
            #[trigger] st.push(x)[i],
            #[trigger] st.push(x)[j],
        ) by {
            if j == st.len() {
                assert(st.push(x)[i] == st[i]);
                assert(st.to_multiset().count(st[i]) > 0);
                assert(t.contains(st[i]));
                let k = choose|k: int| 0 <= k < t.len() && t[k] == st[i];
                assert(s[k] == t[k]);
                assert(s[s.len() - 1] == x);
            } else {
                assert(st.push(x)[i] == st[i]);
                assert(st.push(x)[j] == st[j]);
            }
        }
        lemma_insert_sorted_distinct(st, x);
    }
}

/// Sorting keeps every folder free of two entries of the same name and kind.
pub proof fn lemma_sort_forest_distinct(ms: Seq<NodeModel>)
    requires
        forest_distinct(ms),
    ensures
        forest_distinct(sort_forest(ms)),
    decreases ms,
{
    broadcast use vstd::seq_lib::group_to_multiset_ensures;

    let w = with_sorted_children(ms);
    assert forall|i: int, j: int| 0 <= i < j < w.len() implies !same_entry(
        #[trigger] w[i],
        #[trigger] w[j],
    ) by {
        assert(same_entry(w[i], ms[i]));
        assert(same_entry(w[j], ms[j]));
    }
    lemma_sort_nodes_distinct(w);
    lemma_sort_nodes_sorted(w);
    let r = sort_forest(ms);
    assert forall|i: int| 0 <= i < r.len() implies forest_distinct(#[trigger] r[i].children) by {
        assert(r.to_multiset().count(r[i]) > 0);
        assert(w.contains(r[i]));
        let k = choose|k: int| 0 <= k < w.len() && w[k] == r[i];
        assert(w[k].children == sort_forest(ms[k].children));
        assert(decreases_to!(ms => ms[k]));
        assert(decreases_to!(ms[k] => ms[k].children));
        assert(forest_distinct(ms[k].children));
        lemma_sort_forest_distinct(ms[k].children);
    }
}

/// A built tree holds, in each folder and at every depth, at most one entry
/// of a given name and kind: files that share a folder share its entry.
pub proof fn lemma_build_tree_distinct(files: Seq<Seq<char>>, root: Seq<char>)
    ensures
        forest_distinct(sort_forest(files_tree(files, root))),
{
    lemma_files_tree_distinct(files, root);
    lemma_sort_forest_distinct(files_tree(files, root));
}

/// The forest `ms` holds a file reached through the entry names `comps`:
/// folders named by all but the last component, and a file named by the last.
pub open spec fn has_file(ms: Seq<NodeModel>, comps: Seq<Seq<char>>) -> bool
    decreases comps.len(),
{
    &&& comps.len() > 0
    &&& exists|i: int|
        0 <= i < ms.len() && #[trigger] ms[i].name == comps[0] && ms[i].is_dir == (comps.len() > 1)
            && (comps.len() == 1 || has_file(ms[i].children, comps.drop_first()))
}

proof fn lemma_insert_file_adds(nodes: Seq<NodeModel>, comps: Seq<Seq<char>>, base: Seq<char>)
    requires
        comps.len() > 0,
    ensures
        has_file(insert_file(nodes, comps, base), comps),
    decreases comps.len(),
{
    let name = comps[0];
    let is_dir = comps.len() > 1;
    let path = joined_path_of(base, name);
    let r = insert_file(nodes, comps, base);
    match first_match_from(nodes, name, is_dir, 0) {
        Some(k) => {
            lemma_first_match_from(nodes, name, is_dir, 0);
            if comps.len() > 1 {
                lemma_insert_file_adds(nodes[k].children, comps.drop_first(), path);
            }
            assert(r[k].name == comps[0]);
        },
        None => {
            if comps.len() > 1 {
                lemma_insert_file_adds(Seq::empty(), comps.drop_first(), path);
            }
            assert(r[nodes.len() as int].name == comps[0]);
        },
    }
}

proof fn lemma_insert_file_keeps(
    nodes: Seq<NodeModel>,
    comps: Seq<Seq<char>>,
    base: Seq<char>,
    p: Seq<Seq<char>>,
)
    requires
        has_file(nodes, p),
    ensures
        has_file(insert_file(nodes, comps, base), p),
    decreases p.len(),
{
    if comps.len() > 0 {
        let name = comps[0];
        let is_dir = comps.len() > 1;
        let path = joined_path_of(base, name);
        let r = insert_file(nodes, comps, base);
        let i = choose|i: int|
            0 <= i < nodes.len() && #[trigger] nodes[i].name == p[0] && nodes[i].is_dir == (p.len()
                > 1) && (p.len() == 1 || has_file(nodes[i].children, p.drop_first()));
        match first_match_from(nodes, name, is_dir, 0) {
            Some(k) => {
                lemma_first_match_from(nodes, name, is_dir, 0);
                if i == k && p.len() > 1 {
                    lemma_insert_file_keeps(
                        nodes[k].children,
                        comps.drop_first(),
                        path,
                        p.drop_first(),
                    );
                }
                assert(r[i].name == p[0]);
            },
            None => {
                assert(r[i] == nodes[i]);
                assert(r[i].name == p[0]);
            },
        }
    }
}

/// Every file below `root`, with at least one component below it, is in the
/// tree of `files`.
pub proof fn lemma_files_tree_complete(files: Seq<Seq<char>>, root: Seq<char>, j: int)
    requires
        0 <= j < files.len(),
        relative_components_of(files[j], root) matches Some(c) && c.len() > 0,
    ensures
        has_file(files_tree(files, root), relative_components_of(files[j], root)->0),
    decreases files.len(),
{
    let c = relative_components_of(files[j], root)->0;
    let prev = files.drop_last();
    if j == files.len() - 1 {
        lemma_insert_file_adds(files_tree(prev, root), c, root);
    } else {
        assert(prev[j] == files[j]);
        lemma_files_tree_complete(prev, root, j);
        match relative_components_of(files.last(), root) {
            Some(d) => lemma_insert_file_keeps(files_tree(prev, root), d, root, c),
            None => {},
        }
    }
}

/// Sorting keeps every file of the tree.
pub proof fn lemma_sort_forest_keeps(ms: Seq<NodeModel>, p: Seq<Seq<char>>)
    requires
        has_file(ms, p),
    ensures
        has_file(sort_forest(ms), p),
    decreases p.len(),
{
    broadcast use vstd::seq_lib::group_to_multiset_ensures;

    let w = with_sorted_children(ms);
    let r = sort_forest(ms);
    lemma_sort_nodes_sorted(w);
    let i = choose|i: int|
        0 <= i < ms.len() && #[trigger] ms[i].name == p[0] && ms[i].is_dir == (p.len() > 1) && (
        p.len() == 1 || has_file(ms[i].children, p.drop_first()));
    if p.len() > 1 {
        lemma_sort_forest_keeps(ms[i].children, p.drop_first());
    }
    assert(w[i].children == sort_forest(ms[i].children));
    assert(w.contains(w[i]));
    assert(r.to_multiset().count(w[i]) > 0);
    assert(r.contains(w[i]));
    let k = choose|k: int| 0 <= k < r.len() && r[k] == w[i];
    assert(r[k].name == p[0]);
}

/// Every Markdown file found below the open folder appears in the sidebar's
/// tree, under folders named by its path components.
pub proof fn lemma_build_tree_complete(files: Seq<Seq<char>>, root: Seq<char>, j: int)
    requires
        0 <= j < files.len(),
        relative_components_of(files[j], root) matches Some(c) && c.len() > 0,
    ensures
        has_file(
            sort_forest(files_tree(files, root)),
            relative_components_of(files[j], root)->0,
        ),
{
    lemma_files_tree_complete(files, root, j);
    lemma_sort_forest_keeps(files_tree(files, root), relative_components_of(files[j], root)->0);
}

proof fn lemma_insert_file_only(
    nodes: Seq<NodeModel>,
    comps: Seq<Seq<char>>,
    base: Seq<char>,
    p: Seq<Seq<char>>,
)
    requires
        has_file(insert_file(nodes, comps, base), p),
    ensures
        has_file(nodes, p) || p == comps,
    decreases p.len(),
{
    if comps.len() > 0 {
        let name = comps[0];
        let is_dir = comps.len() > 1;
        let path = joined_path_of(base, name);
        let r = insert_file(nodes, comps, base);
        let i = choose|i: int|
            0 <= i < r.len() && #[trigger] r[i].name == p[0] && r[i].is_dir == (p.len() > 1) && (
            p.len() == 1 || has_file(r[i].children, p.drop_first()));
        match first_match_from(nodes, name, is_dir, 0) {
            Some(k) => {
                lemma_first_match_from(nodes, name, is_dir, 0);
                if i != k {
                    assert(r[i] == nodes[i]);
                    assert(nodes[i].name == p[0]);
                } else if p.len() == 1 {
                    assert(nodes[k].name == p[0]);
                } else {
                    lemma_insert_file_only(
                        nodes[k].children,
                        comps.drop_first(),
                        path,
                        p.drop_first(),
                    );
                    if has_file(nodes[k].children, p.drop_first()) {
                        assert(nodes[k].name == p[0]);
                    } else {
                        assert(p =~= comps) by {
                            assert(p == seq![p[0]] + p.drop_first());
                            assert(comps == seq![comps[0]] + comps.drop_first());
                        }
                    }
                }
            },
            None => {
                if i < nodes.len() {
                    assert(r[i] == nodes[i]);
                    assert(nodes[i].name == p[0]);
                } else if p.len() == 1 {
                    assert(p =~= comps);
                } else {
                    lemma_insert_file_only(Seq::empty(), comps.drop_first(), path, p.drop_first());
                    assert(p =~= comps) by {
                        assert(p == seq![p[0]] + p.drop_first());
                        assert(comps == seq![comps[0]] + comps.drop_first());
                    }
                }
            },
        }
    }
}

proof fn lemma_sort_forest_only(ms: Seq<NodeModel>, p: Seq<Seq<char>>)
    requires
        has_file(sort_forest(ms), p),
    ensures
        has_file(ms, p),
    decreases p.len(),
{
    broadcast use vstd::seq_lib::group_to_multiset_ensures;

    let w = with_sorted_children(ms);
    let r = sort_forest(ms);
    lemma_sort_nodes_sorted(w);
    let i = choose|i: int|
        0 <= i < r.len() && #[trigger] r[i].name == p[0] && r[i].is_dir == (p.len() > 1) && (
        p.len() == 1 || has_file(r[i].children, p.drop_first()));
    assert(r.to_multiset().count(r[i]) > 0);
    assert(w.contains(r[i]));
    let k = choose|k: int| 0 <= k < w.len() && w[k] == r[i];
    assert(w[k].children == sort_forest(ms[k].children));
    if p.len() > 1 {
        lemma_sort_forest_only(ms[k].children, p.drop_first());
    }
    assert(ms[k].name == p[0]);
}

proof fn lemma_files_tree_sound(files: Seq<Seq<char>>, root: Seq<char>, p: Seq<Seq<char>>)
    requires
        has_file(files_tree(files, root), p),
    ensures
        exists|j: int| 0 <= j < files.len() && relative_components_of(#[trigger] files[j], root) == Some(p),
    decreases files.len(),
{
    if files.len() > 0 {
        let prev = files.drop_last();
        let j = files.len() - 1;
        match relative_components_of(files.last(), root) {
            Some(c) => {
                lemma_insert_file_only(files_tree(prev, root), c, root, p);
                if has_file(files_tree(prev, root), p) {
                    lemma_files_tree_sound(prev, root, p);
                    let k = choose|k: int| 0 <= k < prev.len() && relative_components_of(#[trigger] prev[k], root) == Some(p);
                    assert(files[k] == prev[k]);
                } else {
                    assert(files[j] == files.last());
                }
            },
            None => {
                lemma_files_tree_sound(prev, root, p);
                let k = choose|k: int| 0 <= k < prev.len() && relative_components_of(#[trigger] prev[k], root) == Some(p);
                assert(files[k] == prev[k]);
            },
        }
    }
}

/// Every file in the sidebar's tree is one of the files found: the names
/// that lead to it are the path components of one of `files` below `root`.
pub proof fn lemma_build_tree_sound(files: Seq<Seq<char>>, root: Seq<char>, p: Seq<Seq<char>>)
    requires
        has_file(sort_forest(files_tree(files, root)), p),
    ensures
        exists|j: int| 0 <= j < files.len() && relative_components_of(#[trigger] files[j], root) == Some(p),
{
    lemma_sort_forest_only(files_tree(files, root), p);
    lemma_files_tree_sound(files, root, p);
}

/// Every entry of `ms`, at every depth, has as its path the path of the
/// folder that holds it (`base` for the entries of `ms` itself) with its own
/// name pushed on.
pub open spec fn paths_follow(ms: Seq<NodeModel>, base: Seq<char>) -> bool
    decreases ms,
{
    forall|i: int|
        0 <= i < ms.len() ==> {
            &&& (#[trigger] ms[i]).path == joined_path_of(base, ms[i].name)
            &&& paths_follow(ms[i].children, ms[i].path)
        }
}

/// `base` with each of `comps` pushed on in turn.
pub open spec fn joined_all(base: Seq<char>, comps: Seq<Seq<char>>) -> Seq<char>
    decreases comps.len(),
{
    if comps.len() == 0 {
        base
    } else {
        joined_all(joined_path_of(base, comps[0]), comps.drop_first())
    }
}

/// The forest `ms` holds a file reached through the entry names `comps`
/// whose path is `path`.
pub open spec fn has_file_at(ms: Seq<NodeModel>, comps: Seq<Seq<char>>, path: Seq<char>) -> bool
    decreases comps.len(),
{
    &&& comps.len() > 0
    &&& exists|i: int|
        0 <= i < ms.len() && #[trigger] ms[i].name == comps[0] && ms[i].is_dir == (comps.len() > 1)
            && (if comps.len() == 1 {
            ms[i].path == path
        } else {
            has_file_at(ms[i].children, comps.drop_first(), path)
        })
}

proof fn lemma_insert_file_paths(nodes: Seq<NodeModel>, comps: Seq<Seq<char>>, base: Seq<char>)
    requires
        paths_follow(nodes, base),
    ensures
        paths_follow(insert_file(nodes, comps, base), base),
    decreases comps.len(),
{
    if comps.len() > 0 {
        let name = comps[0];
        let is_dir = comps.len() > 1;
        let path = joined_path_of(base, name);
        let r = insert_file(nodes, comps, base);
        match first_match_from(nodes, name, is_dir, 0) {
            Some(k) => {
                lemma_first_match_from(nodes, name, is_dir, 0);
                assert(paths_follow(nodes[k].children, nodes[k].path));
                lemma_insert_file_paths(nodes[k].children, comps.drop_first(), path);
                assert forall|i: int| 0 <= i < r.len() implies {
                    &&& (#[trigger] r[i]).path == joined_path_of(base, r[i].name)
                    &&& paths_follow(r[i].children, r[i].path)
                } by {
                    if i != k {
                        assert(r[i] == nodes[i]);
                    }
                }
            },
            None => {
                assert(paths_follow(Seq::<NodeModel>::empty(), path));
                lemma_insert_file_paths(Seq::empty(), comps.drop_first(), path);
                assert forall|i: int| 0 <= i < r.len() implies {
                    &&& (#[trigger] r[i]).path == joined_path_of(base, r[i].name)
                    &&& paths_follow(r[i].children, r[i].path)
                } by {
                    if i < nodes.len() {
                        assert(r[i] == nodes[i]);
                    }
                }
            },
        }
    }
}

proof fn lemma_files_tree_paths(files: Seq<Seq<char>>, root: Seq<char>)
    ensures
        paths_follow(files_tree(files, root), root),
    decreases files.len(),
{
    if files.len() == 0 {
        assert(paths_follow(Seq::<NodeModel>::empty(), root));
    } else {
        let prev = files.drop_last();
        lemma_files_tree_paths(prev, root);
        match relative_components_of(files.last(), root) {
            Some(c) => lemma_insert_file_paths(files_tree(prev, root), c, root),
            None => {},
        }
    }
}

proof fn lemma_sort_forest_paths(ms: Seq<NodeModel>, base: Seq<char>)
    requires
        paths_follow(ms, base),
    ensures
        paths_follow(sort_forest(ms), base),
    decreases ms,
{
    broadcast use vstd::seq_lib::group_to_multiset_ensures;

    let w = with_sorted_children(ms);
    let r = sort_forest(ms);
    lemma_sort_nodes_sorted(w);
    assert forall|i: int| 0 <= i < r.len() implies {
        &&& (#[trigger] r[i]).path == joined_path_of(base, r[i].name)
        &&& paths_follow(r[i].children, r[i].path)
    } by {
        assert(r.to_multiset().count(r[i]) > 0);
        assert(w.contains(r[i]));
        let k = choose|k: int| 0 <= k < w.len() && w[k] == r[i];
        assert(w[k].children == sort_forest(ms[k].children));
        assert(decreases_to!(ms => ms[k]));
        assert(decreases_to!(ms[k] => ms[k].children));
        assert(paths_follow(ms[k].children, ms[k].path));
        lemma_sort_forest_paths(ms[k].children, ms[k].path);
    }
}

proof fn lemma_paths_follow_file(ms: Seq<NodeModel>, base: Seq<char>, comps: Seq<Seq<char>>)
    requires
        paths_follow(ms, base),
        has_file(ms, comps),
    ensures
        has_file_at(ms, comps, joined_all(base, comps)),
    decreases comps.len(),
{
    let i = choose|i: int|
        0 <= i < ms.len() && #[trigger] ms[i].name == comps[0] && ms[i].is_dir == (comps.len() > 1)
            && (comps.len() == 1 || has_file(ms[i].children, comps.drop_first()));
    assert(ms[i].path == joined_path_of(base, comps[0]));
    assert(joined_all(base, comps) == joined_all(ms[i].path, comps.drop_first()));
    if comps.len() > 1 {
        lemma_paths_follow_file(ms[i].children, ms[i].path, comps.drop_first());
    } else {
        assert(joined_all(ms[i].path, comps.drop_first()) == ms[i].path);
    }
    assert(ms[i].name == comps[0]);
}

/// In the sidebar's tree every entry, at every depth, has as its path the
/// path of its folder with its own name pushed on (the open folder's path
/// for the entries at the top).
pub proof fn lemma_build_tree_paths(files: Seq<Seq<char>>, root: Seq<char>)
    ensures
        paths_follow(sort_forest(files_tree(files, root)), root),
{
    lemma_files_tree_paths(files, root);
    lemma_sort_forest_paths(files_tree(files, root), root);
}

/// Every Markdown file found below the open folder is in the sidebar's tree
/// with the open folder's path and the file's components below it pushed on
/// in turn as its path: the path that is opened when it is clicked.
pub proof fn lemma_build_tree_file_path(files: Seq<Seq<char>>, root: Seq<char>, j: int)
    requires
        0 <= j < files.len(),
        relative_components_of(files[j], root) matches Some(c) && c.len() > 0,
    ensures
        ({
            let c = relative_components_of(files[j], root)->0;
            has_file_at(sort_forest(files_tree(files, root)), c, joined_all(root, c))
        }),
{
    let c = relative_components_of(files[j], root)->0;
    lemma_build_tree_complete(files, root, j);
    lemma_build_tree_paths(files, root);
    lemma_paths_follow_file(sort_forest(files_tree(files, root)), root, c);
}

// ---------------------------------------------------------------------------
// Scanning a folder
// ---------------------------------------------------------------------------

/// What the folder scan does with one directory entry.
#[derive(Clone, Copy, Debug, PartialEq, Eq, Structural)]
pub enum EntryAction {
    /// A folder: scan it too, after the files of this one.
    Descend,
    /// A Markdown file: list it.
    Keep,
    /// Anything else: leave it out.
    Skip,
}

/// What the folder scan does with the entry at `path`: folders are scanned,
/// Markdown files are listed, other files are left out.
pub fn scan_entry(is_dir: bool, path: &str) -> (r: EntryAction)
    ensures
        r == (if is_dir {
            EntryAction::Descend
        } else if markdown_path(path@) {
            EntryAction::Keep
        } else {
            EntryAction::Skip
        }),
{
    if is_dir {
        EntryAction::Descend
    } else if is_markdown(path) {
        EntryAction::Keep
    } else {
        EntryAction::Skip
    }
}

/// The byte strings `v`.
pub open spec fn byte_views(v: Seq<Vec<u8>>) -> Seq<Seq<u8>> {
    Seq::new(v.len(), |i: int| v[i]@)
}

fn same_bytes(a: &Vec<u8>, b: &Vec<u8>) -> (r: bool)
    ensures
        r == (a@ == b@),
{
    if a.len() != b.len() {
        return false;
    }
    let mut i: usize = 0;
    while i < a.len()
        invariant
            a@.len() == b@.len(),
            i <= a@.len(),
            forall|j: int| 0 <= j < i ==> a@[j] == b@[j],
        decreases a@.len() - i,
    {
        if a[i] != b[i] {
            return false;
        }
        i = i + 1;
    }
    assert(a@ =~= b@);
    true
}

/// The folder scan's guard against cycles: whether the folder whose
/// canonical path has the bytes `folder` is seen for the first time. If so it
/// is added to `seen`; a folder seen before is not scanned again.
pub fn first_visit(seen: &mut Vec<Vec<u8>>, folder: Vec<u8>) -> (r: bool)
    ensures
        r == !byte_views(old(seen)@).contains(folder@),
        byte_views(final(seen)@) == (if r {
            byte_views(old(seen)@).push(folder@)
        } else {
            byte_views(old(seen)@)
        }),
{
    let mut i: usize = 0;
    while i < seen.len()
        invariant
            i <= seen@.len(),
            forall|j: int| 0 <= j < i ==> seen@[j]@ != folder@,
        decreases seen@.len() - i,
    {
        if same_bytes(&seen[i], &folder) {
            assert(byte_views(seen@)[i as int] == folder@);
            return false;
        }
        i = i + 1;
    }
    assert(!byte_views(seen@).contains(folder@)) by {
        if byte_views(seen@).contains(folder@) {
            let k = choose|k: int| 0 <= k < seen@.len() && byte_views(seen@)[k] == folder@;
            assert(seen@[k]@ == folder@);
        }
    }
    let ghost before = seen@;
    seen.push(folder);
    assert(byte_views(seen@) =~= byte_views(before).push(seen@[before.len() as int]@));
    true
}

} // verus!
