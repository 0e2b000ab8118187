//! Paths as text: components separated by `/`.

use crate::text;
use crate::text::{chars_of, find_last, slice_of};
use vstd::prelude::*;
use vstd::string::*;

verus! {

/// Without the trailing separators and `.` components, which name nothing.
pub open spec fn bare(p: Seq<char>) -> Seq<char>
    decreases p.len(),
{
    if p.len() > 0 && p.last() == '/' {
        bare(p.drop_last())
    } else if p.len() >= 2 && p.last() == '.' && p[p.len() - 2] == '/' {
        bare(p.drop_last())
    } else {
        p
    }
}

/// What follows the last separator of `bare(p)`.
pub open spec fn last_component(p: Seq<char>) -> Seq<char> {
    bare(p).skip(text::last_at(bare(p), '/') + 1)
}

/// A component that names an entry of its folder.
pub open spec fn is_name(n: Seq<char>) -> bool {
    &&& n.len() > 0
    &&& n != seq!['.']
    &&& n != seq!['.', '.']
}

/// The name of the file or folder that the path ends in.
pub open spec fn file_name(p: Seq<char>) -> Option<Seq<char>> {
    if is_name(last_component(p)) {
        Some(last_component(p))
    } else {
        None
    }
}

/// The name, or nothing.
pub open spec fn name_of(p: Seq<char>) -> Seq<char> {
    match file_name(p) {
        Some(n) => n,
        None => Seq::empty(),
    }
}

/// The folder that holds it: empty for a lone name, none for the root and for nothing.
pub open spec fn parent(p: Seq<char>) -> Option<Seq<char>> {
    let q = bare(p);
    if q.len() == 0 {
        None
    } else {
        let before = q.take(text::last_at(q, '/') + 1);
        if before.len() > 0 && bare(before).len() == 0 {
            Some(seq!['/'])
        } else {
            Some(bare(before))
        }
    }
}

/// Where the extension of a name starts, behind its last dot. A leading dot starts none.
pub open spec fn has_extension(n: Seq<char>) -> bool {
    text::last_at(n, '.') > 0 && n != seq!['.', '.']
}

pub open spec fn extension(n: Seq<char>) -> Option<Seq<char>> {
    if has_extension(n) {
        Some(n.skip(text::last_at(n, '.') + 1))
    } else {
        None
    }
}

/// A name without its extension.
pub open spec fn stem(n: Seq<char>) -> Seq<char> {
    if has_extension(n) {
        n.take(text::last_at(n, '.'))
    } else {
        n
    }
}

/// `name` inside `dir`; an absolute `name` stands for itself.
pub open spec fn join(dir: Seq<char>, name: Seq<char>) -> Seq<char> {
    if name.len() > 0 && name[0] == '/' {
        name
    } else if dir.len() > 0 && dir.last() != '/' {
        dir.push('/') + name
    } else {
        dir + name
    }
}

fn bare_len(v: &Vec<char>, end: usize) -> (n: usize)
    requires
        end <= v.len(),
    ensures
        n <= end,
        v@.take(n as int) == bare(v@.take(end as int)),
{
    let mut n: usize = end;
    while n > 0 && (v[n - 1] == '/' || (n >= 2 && v[n - 1] == '.' && v[n - 2] == '/'))
        invariant
            n <= end <= v.len(),
            bare(v@.take(n as int)) == bare(v@.take(end as int)),
        decreases n,
    {
        assert(v@.take(n as int).drop_last() =~= v@.take(n as int - 1));
        n -= 1;
    }
    n
}

fn component_start(v: &Vec<char>, end: usize) -> (i: usize)
    requires
        end <= v.len(),
    ensures
        i <= end,
        i == text::last_at(v@.take(end as int), '/') + 1,
{
    let mut i: usize = end;
    while i > 0 && v[i - 1] != '/'
        invariant
            i <= end <= v.len(),
            text::last_at(v@.take(i as int), '/') == text::last_at(v@.take(end as int), '/'),
        decreases i,
    {
        assert(v@.take(i as int).drop_last() =~= v@.take(i as int - 1));
        i -= 1;
    }
    i
}

pub fn file_name_of(p: &str) -> (r: Option<String>)
    ensures
        match r {
            Some(n) => file_name(p@) == Some(n@),
            None => file_name(p@) is None,
        },
{
    let v = chars_of(p);
    assert(v@.take(v@.len() as int) =~= v@);
    let end = bare_len(&v, v.len());
    let start = component_start(&v, end);
    assert(v@.subrange(start as int, end as int) =~= v@.take(end as int).skip(start as int));
    let n: usize = end - start;
    if n == 0 || (n == 1 && v[start] == '.') || (n == 2 && v[start] == '.' && v[start + 1]
        == '.') {
        assert(n == 1 ==> last_component(p@) =~= seq!['.']);
        assert(n == 2 ==> last_component(p@) =~= seq!['.', '.']);
        None
    } else {
        let name = slice_of(&v, start, end);
        assert(name@ == last_component(p@));
        assert(n == 1 ==> name@[0] != '.');
        Some(name)
    }
}

/// The file name, or an empty string where the path has none.
pub fn name_or_empty(p: &str) -> (r: String)
    ensures
        r@ == name_of(p@),
{
    match file_name_of(p) {
        Some(n) => n,
        None => String::new(),
    }
}

pub fn parent_of(p: &str) -> (r: Option<String>)
    ensures
        match r {
            Some(d) => parent(p@) == Some(d@),
            None => parent(p@) is None,
        },
{
    let v = chars_of(p);
    assert(v@.take(v@.len() as int) =~= v@);
    let end = bare_len(&v, v.len());
    if end == 0 {
        return None;
    }
    let start = component_start(&v, end);
    assert(v@.take(end as int).take(start as int) =~= v@.take(start as int));
    let kept = bare_len(&v, start);
    if start > 0 && kept == 0 {
        let mut root = String::new();
        root.push('/');
        assert(root@ =~= seq!['/']);
        Some(root)
    } else {
        let d = slice_of(&v, 0, kept);
        assert(d@ =~= v@.take(kept as int));
        Some(d)
    }
}

fn dot_of(v: &Vec<char>) -> (r: Option<usize>)
    ensures
        match r {
            Some(i) => has_extension(v@) && i == text::last_at(v@, '.') && i < v.len(),
            None => !has_extension(v@),
        },
{
    let dot = find_last(v, '.');
    match dot {
        Some(i) => {
            if i == 0 {
                None
            } else if v.len() == 2 && v[0] == '.' && v[1] == '.' {
                assert(v@ =~= seq!['.', '.']);
                None
            } else {
                assert(v@.len() == 2 ==> v@[0] != '.' || v@[1] != '.');
                Some(i)
            }
        },
        None => None,
    }
}

pub fn extension_of(name: &str) -> (r: Option<String>)
    ensures
        match r {
            Some(e) => extension(name@) == Some(e@),
            None => extension(name@) is None,
        },
{
    let v = chars_of(name);
    match dot_of(&v) {
        Some(i) => {
            let e = slice_of(&v, i + 1, v.len());
            assert(e@ =~= v@.skip(i + 1));
            Some(e)
        },
        None => None,
    }
}

pub fn stem_of(name: &str) -> (r: String)
    ensures
        r@ == stem(name@),
{
    let v = chars_of(name);
    match dot_of(&v) {
        Some(i) => {
            let s = slice_of(&v, 0, i);
            assert(s@ =~= v@.take(i as int));
            s
        },
        None => name.to_owned(),
    }
}

pub fn join_path(dir: &str, name: &str) -> (r: String)
    ensures
        r@ == join(dir@, name@),
{
    let d = chars_of(dir);
    let n = chars_of(name);
    if n.len() > 0 && n[0] == '/' {
        return name.to_owned();
    }
    let mut r = dir.to_owned();
    if d.len() > 0 && d[d.len() - 1] != '/' {
        r.push('/');
    }
    r.append(name);
    r
}

/// Whether a part of a split path names a step: empty parts and `.` do not, but for a `.`
/// that the path starts with.
pub open spec fn is_step(part: Seq<char>, first: bool) -> bool {
    part.len() > 0 && (part != seq!['.'] || first)
}

/// The steps among the parts of a path.
pub open spec fn steps_of(parts: Seq<Seq<char>>) -> Seq<Seq<char>>
    decreases parts.len(),
{
    if parts.len() == 0 {
        Seq::empty()
    } else if is_step(parts.last(), parts.len() == 1) {
        steps_of(parts.drop_last()).push(parts.last())
    } else {
        steps_of(parts.drop_last())
    }
}

/// The steps that a path takes; repeated and trailing separators make no difference.
pub open spec fn steps(p: Seq<char>) -> Seq<Seq<char>> {
    steps_of(text::split_on(p, '/'))
}

pub open spec fn is_absolute(p: Seq<char>) -> bool {
    p.len() > 0 && p[0] == '/'
}

/// Whether two paths are the same: they start at the same place and take the same steps.
pub open spec fn same(a: Seq<char>, b: Seq<char>) -> bool {
    is_absolute(a) == is_absolute(b) && steps(a) == steps(b)
}

fn steps_vec(p: &Vec<char>) -> (r: Vec<String>)
    ensures
        text::views(r@) == steps(p@),
{
    let parts = text::split_at_char(p, '/');
    let ghost all = text::views(parts@);
    let mut r: Vec<String> = Vec::new();
    let mut i: usize = 0;
    assert(text::views(r@) =~= steps_of(all.take(0)));
    while i < parts.len()
        invariant
            i <= parts.len(),
            all == text::views(parts@),
            text::views(r@) == steps_of(all.take(i as int)),
        decreases parts.len() - i,
    {
        let part = chars_of(&parts[i]);
        let dot = part.len() == 1 && part[0] == '.';
        proof {
            assert(all.take(i as int + 1).drop_last() =~= all.take(i as int));
            assert(all.take(i as int + 1).last() == part@);
            if dot {
                assert(part@ =~= seq!['.']);
            }
        }
        if part.len() > 0 && (!dot || i == 0) {
            let ghost before = text::views(r@);
            r.push(parts[i].clone());
            assert(text::views(r@) =~= before.push(part@));
        }
        i += 1;
    }
    assert(all.take(all.len() as int) =~= all);
    r
}

pub fn same_path(a: &str, b: &str) -> (r: bool)
    ensures
        r == same(a@, b@),
{
    let x = chars_of(a);
    let y = chars_of(b);
    let x_root = x.len() > 0 && x[0] == '/';
    let y_root = y.len() > 0 && y[0] == '/';
    if x_root != y_root {
        return false;
    }
    let p = steps_vec(&x);
    let q = steps_vec(&y);
    if p.len() != q.len() {
        assert(text::views(p@).len() != text::views(q@).len());
        return false;
    }
    let mut i: usize = 0;
    while i < p.len()
        invariant
            i <= p.len(),
            p.len() == q.len(),
            x@ == a@,
            y@ == b@,
            x_root == y_root,
            x_root == is_absolute(a@),
            y_root == is_absolute(b@),
            text::views(p@) == steps(a@),
            text::views(q@) == steps(b@),
            forall|k: int| 0 <= k < i ==> text::views(p@)[k] == text::views(q@)[k],
        decreases p.len() - i,
    {
        if !text::same(&p[i], &q[i]) {
            assert(text::views(p@)[i as int] != text::views(q@)[i as int]);
            return false;
        }
        i += 1;
    }
    assert(text::views(p@) =~= text::views(q@));
    true
}

/// The path with another name in place of its last.
pub open spec fn with_name(p: Seq<char>, name: Seq<char>) -> Seq<char> {
    match file_name(p) {
        Some(_) => match parent(p) {
            Some(dir) => join(dir, name),
            None => join(p, name),
        },
        None => join(p, name),
    }
}

pub fn with_file_name(p: &str, name: &str) -> (r: String)
    ensures
        r@ == with_name(p@, name@),
{
    match file_name_of(p) {
        Some(_) => match parent_of(p) {
            Some(dir) => join_path(&dir, name),
            None => join_path(p, name),
        },
        None => join_path(p, name),
    }
}

/// What follows the last separator.
pub open spec fn last_part(p: Seq<char>) -> Seq<char> {
    p.skip(text::last_at(p, '/') + 1)
}

/// A path that ends in a name takes that name as its last step.
pub proof fn lemma_last_step(p: Seq<char>)
    requires
        is_name(last_part(p)),
    ensures
        steps(p).len() > 0,
        steps(p).last() == last_part(p),
{
    text::lemma_split_last(p, '/');
}

/// Putting a name into a folder leaves its last part as it is.
pub proof fn lemma_join_last_part(dir: Seq<char>, name: Seq<char>)
    requires
        last_part(name).len() > 0,
    ensures
        last_part(join(dir, name)) == last_part(name),
{
    text::lemma_last_at(name, '/');
    let i = text::last_at(name, '/');
    let tail = name.skip(i + 1);
    assert forall|k: int| 0 <= k < tail.len() implies #[trigger] tail[k] != '/' by {
        assert(tail[k] == name[i + 1 + k]);
    }
    let p = join(dir, name);
    if p == name {
    } else {
        let d = if dir.len() > 0 && dir.last() != '/' {
            dir.push('/')
        } else {
            dir
        };
        assert(p == d + name);
        if i >= 0 {
            let before = d + name.take(i);
            assert(p =~= before.push('/') + tail);
            text::lemma_last_at_is(before, '/', tail);
            assert(p.skip(before.len() as int + 1) =~= tail);
        } else if d.len() > 0 {
            let before = d.drop_last();
            assert(d.last() == '/');
            assert(name =~= tail);
            assert(p =~= before.push('/') + tail);
            text::lemma_last_at_is(before, '/', tail);
            assert(p.skip(before.len() as int + 1) =~= tail);
        } else {
            assert(p =~= name);
        }
    }
}

pub proof fn lemma_bare(p: Seq<char>)
    ensures
        bare(bare(p)) == bare(p),
        bare(p).len() > 0 ==> bare(p).last() != '/',
    decreases p.len(),
{
    if p.len() > 0 && p.last() == '/' {
        lemma_bare(p.drop_last());
    } else if p.len() >= 2 && p.last() == '.' && p[p.len() - 2] == '/' {
        lemma_bare(p.drop_last());
    }
}

/// A name that is put in place of another stands in the same folder, and putting it there
/// again changes nothing.
pub proof fn lemma_with_name(p: Seq<char>, n: Seq<char>)
    requires
        file_name(p) is Some,
        is_name(n),
        !n.contains('/'),
    ensures
        file_name(with_name(p, n)) == Some(n),
        parent(with_name(p, n)) == parent(p),
        with_name(with_name(p, n), n) == with_name(p, n),
{
    let q = bare(p);
    text::lemma_last_at(q, '/');
    let was = q.take(text::last_at(q, '/') + 1);
    lemma_bare(was);
    assert(parent(p) is Some);
    let dir = parent(p)->0;
    let to = join(dir, n);
    assert forall|k: int| 0 <= k < n.len() implies #[trigger] n[k] != '/' by {
        assert(n.contains(n[k]));
    }
    assert(with_name(p, n) == to);
    assert(n.len() == 1 && n[0] == '.' ==> n =~= seq!['.']);
    assert(to.last() == n.last());
    assert(n.len() >= 2 ==> to[to.len() - 2] == n[n.len() - 2]);
    assert(bare(to) == to);
    if dir.len() == 0 {
        assert(to =~= n);
        text::lemma_last_at(to, '/');
        assert(text::last_at(to, '/') == -1);
        assert(to.take(0) =~= Seq::<char>::empty());
        assert(bare(to.take(0)) =~= dir);
        assert(last_component(to) =~= n);
        assert(dir =~= Seq::<char>::empty());
    } else {
        let before = if dir.last() == '/' {
            dir.drop_last()
        } else {
            dir
        };
        assert(to =~= before.push('/') + n);
        text::lemma_last_at_is(before, '/', n);
        assert(to.skip(before.len() as int + 1) =~= n);
        let with_slash = to.take(before.len() as int + 1);
        assert(with_slash =~= before.push('/'));
        assert(with_slash.drop_last() =~= before);
        assert(bare(with_slash) == bare(before));
        if dir.last() == '/' {
            assert(dir =~= seq!['/']);
            assert(before =~= Seq::<char>::empty());
            assert(bare(before).len() == 0);
        } else {
            assert(dir == bare(was));
            assert(bare(before) == dir);
        }
    }
}

/// A name that is joined to a folder is one more step.
pub proof fn lemma_join_steps(dir: Seq<char>, name: Seq<char>)
    requires
        name.len() > 0,
        name != seq!['.'],
        !name.contains('/'),
    ensures
        steps(join(dir, name)) == steps(dir).push(name),
        dir.len() > 0 ==> is_absolute(join(dir, name)) == is_absolute(dir),
{
    assert(name[0] != '/');
    let none = Seq::<Seq<char>>::empty();
    if dir.len() == 0 {
        assert(dir =~= Seq::<char>::empty());
        text::lemma_split_extend(dir, name, '/');
        let parts = text::split_on(dir, '/');
        assert(parts == seq![Seq::<char>::empty()]);
        assert(parts.drop_last() =~= none);
        assert(parts.last() + name =~= name);
        let one = none.push(name);
        assert(text::split_on(dir + name, '/') == one);
        assert(one.drop_last() =~= none);
        assert(steps_of(none) =~= none);
        assert(steps_of(one) == steps_of(one.drop_last()).push(name));
        assert(steps(dir) =~= none) by {
            assert(parts.drop_last() =~= none);
        }
    } else {
        let d = if dir.last() != '/' {
            dir
        } else {
            dir.drop_last()
        };
        let with_slash = d.push('/');
        assert(join(dir, name) =~= with_slash + name);
        let parts = text::split_on(d, '/');
        text::lemma_split_on_nonempty(d, '/');
        assert(with_slash.drop_last() =~= d);
        assert(text::split_on(with_slash, '/') == parts.push(Seq::empty()));
        text::lemma_split_extend(with_slash, name, '/');
        let longer = parts.push(Seq::<char>::empty());
        assert(longer.drop_last() =~= parts);
        assert(Seq::<char>::empty() + name =~= name);
        let all = parts.push(name);
        assert(text::split_on(join(dir, name), '/') == all);
        assert(all.drop_last() =~= parts);
        assert(steps_of(all) == steps_of(parts).push(name));
        if dir.last() == '/' {
            assert(dir =~= with_slash);
            assert(steps(dir) == steps_of(longer));
            assert(steps_of(longer) == steps_of(parts));
        }
        assert(join(dir, name)[0] == dir[0]);
    }
}

pub fn steps_of_path(p: &str) -> (r: Vec<String>)
    ensures
        text::views(r@) == steps(p@),
{
    let v = chars_of(p);
    steps_vec(&v)
}

/// Whether a path takes all the steps of `root` first, from where it starts.
pub open spec fn within(p: Seq<char>, root: Seq<char>) -> bool {
    &&& is_absolute(p) == is_absolute(root)
    &&& steps(root).len() <= steps(p).len()
    &&& steps(p).take(steps(root).len() as int) == steps(root)
}

/// What a path adds to `root`, its steps joined by one slash each; the path itself where it
/// does not lead through `root`.
pub open spec fn below(p: Seq<char>, root: Seq<char>) -> Seq<char> {
    if within(p, root) {
        text::join(steps(p).skip(steps(root).len() as int), "/"@)
    } else {
        p
    }
}

fn starts_like(p: &Vec<String>, root: &Vec<String>) -> (b: bool)
    ensures
        b == (root@.len() <= p@.len() && text::views(p@).take(root@.len() as int)
            == text::views(root@)),
{
    if root.len() > p.len() {
        return false;
    }
    let ghost all = text::views(p@).take(root@.len() as int);
    let mut i: usize = 0;
    while i < root.len()
        invariant
            i <= root.len() <= p.len(),
            all == text::views(p@).take(root@.len() as int),
            forall|k: int| 0 <= k < i ==> #[trigger] all[k] == root@[k]@,
        decreases root.len() - i,
    {
        assert(all[i as int] == p@[i as int]@);
        if !text::same(&p[i], &root[i]) {
            assert(all[i as int] != text::views(root@)[i as int]);
            return false;
        }
        i += 1;
    }
    assert(all =~= text::views(root@));
    true
}

fn starts_at_root(p: &str) -> (b: bool)
    ensures
        b == is_absolute(p@),
{
    let v = chars_of(p);
    v.len() > 0 && v[0] == '/'
}

pub fn is_within(p: &str, root: &str) -> (b: bool)
    ensures
        b == within(p@, root@),
{
    starts_at_root(p) == starts_at_root(root) && starts_like(
        &steps_of_path(p),
        &steps_of_path(root),
    )
}

pub fn path_below(p: &str, root: &str) -> (r: String)
    ensures
        r@ == below(p@, root@),
{
    if !is_within(p, root) {
        return p.to_owned();
    }
    let all = steps_of_path(p);
    let n = steps_of_path(root).len();
    let mut rest: Vec<String> = Vec::new();
    let mut i: usize = n;
    assert(text::views(rest@) =~= steps(p@).subrange(n as int, n as int));
    while i < all.len()
        invariant
            n <= i <= all.len(),
            text::views(all@) == steps(p@),
            text::views(rest@) == steps(p@).subrange(n as int, i as int),
        decreases all.len() - i,
    {
        let ghost had = text::views(rest@);
        text::push_text(&mut rest, all[i].clone());
        assert(steps(p@)[i as int] == text::views(all@)[i as int]);
        assert(text::views(rest@) =~= steps(p@).subrange(n as int, i + 1));
        i += 1;
    }
    assert(steps(p@).subrange(n as int, all@.len() as int) =~= steps(p@).skip(n as int));
    text::join_strings(&rest, "/")
}

/// A path is its folder and its name: a name behind a folder and a separator is the name of
/// the whole, and the folder is what holds it.
pub proof fn law_path_is_folder_and_name(dir: Seq<char>, name: Seq<char>)
    requires
        dir.len() > 0,
        dir.last() != '/',
        dir.len() >= 2 ==> !(dir.last() == '.' && dir[dir.len() - 2] == '/'),
        name.len() > 0,
        name != seq!['.'],
        name != seq!['.', '.'],
        !name.contains('/'),
    ensures
        file_name(dir.push('/') + name) == Some(name),
        name_of(dir.push('/') + name) == name,
        parent(dir.push('/') + name) == Some(dir),
        join(dir, name) == dir.push('/') + name,
        file_name(name) == Some(name),
        parent(name) == Some(Seq::<char>::empty()),
{
    let p = dir.push('/') + name;
    assert forall|k: int| 0 <= k < name.len() implies #[trigger] name[k] != '/' by {
        assert(name.contains(name[k]));
    }
    assert(name.len() == 1 && name[0] == '.' ==> name =~= seq!['.']);
    assert(p.last() == name.last());
    assert(name.len() >= 2 ==> p[p.len() - 2] == name[name.len() - 2]);
    assert(bare(p) == p);
    text::lemma_last_at_is(dir, '/', name);
    assert(p.skip(dir.len() as int + 1) =~= name);
    let with_slash = p.take(dir.len() as int + 1);
    assert(with_slash =~= dir.push('/'));
    assert(with_slash.drop_last() =~= dir);
    assert(bare(with_slash) == bare(dir));
    assert(bare(dir) == dir);
    assert(name[0] != '/');
    assert(bare(name) == name);
    text::lemma_last_at(name, '/');
    assert(text::last_at(name, '/') == -1);
    assert(name.skip(0) =~= name);
    assert(name.take(0) =~= Seq::<char>::empty());
    assert(bare(name.take(0)) =~= Seq::<char>::empty());
}

/// A name is its stem and, behind its last dot, its extension; without a dot, or with none but
/// the first character, it has none.
pub proof fn law_name_is_stem_and_extension(before: Seq<char>, ext: Seq<char>)
    requires
        before.len() > 0,
        !ext.contains('.'),
        !(before == seq!['.'] && ext.len() == 0),
    ensures
        extension(before.push('.') + ext) == Some(ext),
        stem(before.push('.') + ext) == before,
        extension(ext) is None,
        stem(ext) == ext,
        extension(seq!['.'] + ext) is None,
        stem(seq!['.'] + ext) == seq!['.'] + ext,
{
    let n = before.push('.') + ext;
    assert forall|k: int| 0 <= k < ext.len() implies #[trigger] ext[k] != '.' by {
        assert(ext.contains(ext[k]));
    }
    text::lemma_last_at_is(before, '.', ext);
    assert(n.skip(before.len() as int + 1) =~= ext);
    assert(n.take(before.len() as int) =~= before);
    if n == seq!['.', '.'] {
        assert(before[0] == n[0]);
        assert(before =~= seq!['.']);
    }
    text::lemma_last_at(ext, '.');
    if text::last_at(ext, '.') >= 0 {
        assert(ext[text::last_at(ext, '.')] == '.');
    }
    let none = Seq::<char>::empty();
    text::lemma_last_at_is(none, '.', ext);
    assert(none.push('.') + ext =~= seq!['.'] + ext);
}

} // verus!
