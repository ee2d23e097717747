//! Object paths: `/` names the file, `/'group'` a group and `/'group'/'channel'` a channel.
//! Inside the quotes a doubled quote stands for one quote character.
use vstd::prelude::*;

verus! {

/// Reads a quoted name from position `i` (just after its opening quote) up to its closing
/// quote, turning doubled quotes into one; gives the name and the position after the quote.
pub open spec fn scan_name(p: Seq<char>, i: nat, acc: Seq<char>) -> Option<(Seq<char>, nat)>
    decreases p.len() - i,
{
    if i >= p.len() {
        None
    } else if p[i as int] == '\'' {
        if i + 1 < p.len() && p[i + 1int] == '\'' {
            scan_name(p, i + 2, acc.push('\''))
        } else {
            Some((acc, i + 1))
        }
    } else {
        scan_name(p, i + 1, acc.push(p[i as int]))
    }
}

/// The names of the components of a path from position `i` on: each is `/` followed by a
/// quoted name. `None` when the text from `i` is not such a sequence.
pub open spec fn components(p: Seq<char>, i: nat) -> Option<Seq<Seq<char>>>
    decreases p.len() - i,
{
    if i >= p.len() {
        Some(Seq::empty())
    } else if i + 1 < p.len() && p[i as int] == '/' && p[i + 1int] == '\'' {
        match scan_name(p, i + 2, Seq::empty()) {
            Some((n, j)) => if i < j && j <= p.len() {
                match components(p, j) {
                    Some(rest) => Some(seq![n] + rest),
                    None => None,
                }
            } else {
                None
            },
            None => None,
        }
    } else {
        None
    }
}

/// Whether a path names the file itself.
pub open spec fn path_is_root(p: Seq<char>) -> bool {
    p == seq!['/']
}

/// Appends a character with `String::push`.
#[verifier::external_body]
pub(crate) fn push_char(s: &mut String, c: char)
    ensures
        final(s)@ == old(s)@.push(c),
{
    s.push(c)
}

/// The characters of a text.
pub(crate) fn chars_of(s: &str) -> (r: Vec<char>)
    ensures
        r@ == s@,
{
    let mut v: Vec<char> = Vec::new();
    for c in iter: s.chars()
        invariant
            v@ == iter.seq().take(iter.index() as int),
    {
        v.push(c);
    }
    v
}


/// What a path names.
pub enum PathTarget {
    /// The file itself.
    Root,
    /// A group, by name.
    Group(String),
    /// A channel, by group name and channel name.
    Channel(String, String),
    /// Nothing that the reader keeps.
    Other,
}

/// The mathematical value of a [`PathTarget`].
pub enum TargetModel {
    Root,
    Group(Seq<char>),
    Channel(Seq<char>, Seq<char>),
    Other,
}

impl View for PathTarget {
    type V = TargetModel;

    open spec fn view(&self) -> TargetModel {
        match self {
            PathTarget::Root => TargetModel::Root,
            PathTarget::Group(g) => TargetModel::Group(g@),
            PathTarget::Channel(g, c) => TargetModel::Channel(g@, c@),
            PathTarget::Other => TargetModel::Other,
        }
    }
}

/// What the path `p` names.
pub open spec fn path_target(p: Seq<char>) -> TargetModel {
    match components(p, 0) {
        Some(c) => if c.len() == 1 {
            TargetModel::Group(c[0])
        } else if c.len() == 2 {
            TargetModel::Channel(c[0], c[1])
        } else if path_is_root(p) {
            TargetModel::Root
        } else {
            TargetModel::Other
        },
        None => if path_is_root(p) {
            TargetModel::Root
        } else {
            TargetModel::Other
        },
    }
}

/// Reads a quoted name that starts at position `i` of `p` (see [`scan_name`]).
fn scan_name_exec(p: &Vec<char>, i: usize) -> (r: Option<(String, usize)>)
    ensures
        match scan_name(p@, i as nat, Seq::empty()) {
            Some((n, j)) => r matches Some((s, k)) && s@ == n && k == j,
            None => r is None,
        },
{
    let mut acc = String::new();
    let mut k: usize = i;
    while k < p.len()
        invariant
            scan_name(p@, i as nat, Seq::empty()) == scan_name(p@, k as nat, acc@),
        decreases p.len() - k,
    {
        if p[k] == '\'' {
            if k + 1 < p.len() && p[k + 1] == '\'' {
                push_char(&mut acc, '\'');
                k = k + 2;
            } else {
                return Some((acc, k + 1));
            }
        } else {
            push_char(&mut acc, p[k]);
            k = k + 1;
        }
    }
    None
}

/// Classifies a path (see [`path_target`]).
pub fn parse_path(path: &str) -> (r: PathTarget)
    ensures
        r@ == path_target(path@),
{
    let p = chars_of(path);
    let is_root = p.len() == 1 && p[0] == '/';
    assert(is_root == path_is_root(path@)) by {
        if is_root {
            assert(path@ =~= seq!['/']);
        }
    }
    let mut names: Vec<String> = Vec::new();
    let ghost mut seen: Seq<Seq<char>> = Seq::empty();
    let mut i: usize = 0;
    let mut ok = true;
    while ok && i < p.len()
        invariant
            i <= p.len(),
            p@ == path@,
            names@.len() == seen.len(),
            forall|k: int| 0 <= k < seen.len() ==> #[trigger] names@[k]@ == seen[k],
            ok ==> components(p@, 0) == match components(p@, i as nat) {
                Some(rest) => Some(seen + rest),
                None => None::<Seq<Seq<char>>>,
            },
            !ok ==> components(p@, 0) is None,
        decreases (p.len() - i) as int + if ok { 1int } else { 0int },
    {
        if i + 1 < p.len() && p[i] == '/' && p[i + 1] == '\'' {
            match scan_name_exec(&p, i + 2) {
                Some((n, j)) => {
                    if i < j && j <= p.len() {
                        proof {
                            seen = seen.push(n@);
                        }
                        names.push(n);
                        assert(components(p@, 0) == match components(p@, j as nat) {
                            Some(rest) => Some(seen + rest),
                            None => None::<Seq<Seq<char>>>,
                        }) by {
                            match components(p@, j as nat) {
                                Some(rest) => {
                                    assert(seen.drop_last() + (seq![n@] + rest) =~= seen + rest);
                                },
                                None => {},
                            }
                        }
                        i = j;
                    } else {
                        ok = false;
                    }
                },
                None => {
                    ok = false;
                },
            }
        } else {
            ok = false;
        }
    }
    if ok {
        assert(seen + Seq::<Seq<char>>::empty() =~= seen);
        assert(components(p@, 0) == Some(seen));
        if names.len() == 1 {
            let g = names.pop().unwrap();
            return PathTarget::Group(g);
        } else if names.len() == 2 {
            let c = names.pop().unwrap();
            let g = names.pop().unwrap();
            return PathTarget::Channel(g, c);
        }
    }
    if is_root {
        PathTarget::Root
    } else {
        PathTarget::Other
    }
}

/// Whether a name holds no quote character.
pub open spec fn no_quote(n: Seq<char>) -> bool {
    forall|k: int| 0 <= k < n.len() ==> n[k] != '\''
}

/// A name without quotes, standing at `i` and followed by a single closing quote, is read
/// as itself.
proof fn lemma_scan_plain(p: Seq<char>, i: nat, n: Seq<char>, acc: Seq<char>)
    requires
        i + n.len() < p.len(),
        no_quote(n),
        forall|k: int| 0 <= k < n.len() ==> p[i + k] == n[k],
        p[(i + n.len()) as int] == '\'',
        i + n.len() + 1 == p.len() || p[(i + n.len() + 1) as int] != '\'',
    ensures
        scan_name(p, i, acc) == Some((acc + n, i + n.len() + 1)),
    decreases n.len(),
{
    if n.len() == 0 {
        assert(acc + n =~= acc);
    } else {
        assert(p[i as int] == n[0]);
        let rest = n.drop_first();
        assert forall|k: int| 0 <= k < rest.len() implies p[(i + 1) + k] == rest[k] by {
            assert(p[i + (k + 1)] == n[k + 1]);
        }
        lemma_scan_plain(p, i + 1, rest, acc.push(n[0]));
        assert(acc.push(n[0]) + rest =~= acc + n);
    }
}

/// The path `/'g'` names the group `g`, where `g` holds no quote.
pub proof fn lemma_group_path_target(g: Seq<char>)
    requires
        no_quote(g),
    ensures
        path_target(seq!['/', '\''] + g + seq!['\'']) == TargetModel::Group(g),
{
    let p = seq!['/', '\''] + g + seq!['\''];
    assert forall|k: int| 0 <= k < g.len() implies p[2 + k] == g[k] by {}
    lemma_scan_plain(p, 2, g, Seq::empty());
    assert(Seq::<char>::empty() + g =~= g);
    assert(components(p, p.len()) == Some(Seq::<Seq<char>>::empty()));
    assert(seq![g] + Seq::<Seq<char>>::empty() =~= seq![g]);
}

/// The path `/'g'/'c'` names the channel `c` of the group `g`, where neither holds a quote.
pub proof fn lemma_channel_path_target(g: Seq<char>, c: Seq<char>)
    requires
        no_quote(g),
        no_quote(c),
    ensures
        path_target((seq!['/', '\''] + g + seq!['\'']) + (seq!['/', '\''] + c + seq!['\''])) == TargetModel::Channel(g, c),
{
    let p = (seq!['/', '\''] + g + seq!['\'']) + (seq!['/', '\''] + c + seq!['\'']);
    let j = g.len() + 3;
    assert forall|k: int| 0 <= k < g.len() implies p[2 + k] == g[k] by {}
    assert(p[(2 + g.len()) as int] == '\'');
    assert(p[(2 + g.len() + 1) as int] == '/');
    lemma_scan_plain(p, 2, g, Seq::empty());
    assert forall|k: int| 0 <= k < c.len() implies p[(j + 2) + k] == c[k] by {}
    assert(p[j as int] == '/');
    assert(p[(j + 1) as int] == '\'');
    assert(p[(j + 2 + c.len()) as int] == '\'');
    lemma_scan_plain(p, j + 2, c, Seq::empty());
    assert(Seq::<char>::empty() + g =~= g);
    assert(Seq::<char>::empty() + c =~= c);
    assert(components(p, p.len()) == Some(Seq::<Seq<char>>::empty()));
    assert(seq![c] + Seq::<Seq<char>>::empty() =~= seq![c]);
    assert(components(p, j) == Some(seq![c]));
    assert(seq![g] + seq![c] =~= seq![g, c]);
}

/// The path `/` names the file.
pub proof fn lemma_root_path_target()
    ensures
        path_target(seq!['/']) == TargetModel::Root,
{
}

} // verus!
