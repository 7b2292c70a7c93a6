//! The name at the end of a path, as systems of either family read paths.

use vstd::prelude::*;

use crate::text;

verus! {

/// What parts the steps of a path.
#[derive(Debug, Clone, Copy, PartialEq, Eq, Structural)]
pub enum Seps {
    /// Slashes alone.
    Slash,
    /// Slashes and backslashes, as on Windows.
    Either,
    /// Backslashes alone, as in a path that Windows takes word for word. In such a
    /// path a step that stays in place counts as one.
    Backslash,
}

impl Seps {
    /// Whether a character parts the steps of a path.
    pub open spec fn parts(self, c: char) -> bool {
        match self {
            Seps::Slash => c == '/',
            Seps::Either => c == '/' || c == '\\',
            Seps::Backslash => c == '\\',
        }
    }

    fn is_one(self, c: char) -> (r: bool)
        ensures
            r == self.parts(c),
    {
        match self {
            Seps::Slash => c == '/',
            Seps::Either => c == '/' || c == '\\',
            Seps::Backslash => c == '\\',
        }
    }
}

/// Where the step that begins at `from` ends.
pub open spec fn step_end(s: Seq<char>, from: int, seps: Seps) -> int
    decreases s.len() - from,
{
    if from < 0 || from >= s.len() || seps.parts(s[from]) {
        from
    } else {
        step_end(s, from + 1, seps)
    }
}

/// Where two steps end of which the first begins at `from`, where there is a
/// second one.
pub open spec fn two_steps_end(s: Seq<char>, from: int, seps: Seps) -> int {
    let first = step_end(s, from, seps);
    if first < s.len() {
        step_end(s, first + 1, seps)
    } else {
        first
    }
}

/// Whether a path is one that Windows takes word for word: it begins with
/// `\\?\`.
pub open spec fn is_verbatim(s: Seq<char>) -> bool {
    s.len() >= 4 && s[0] == '\\' && s[1] == '\\' && s[2] == '?' && s[3] == '\\'
}

/// Whether a character is a letter of a drive.
pub open spec fn is_drive(c: char) -> bool {
    'a' <= c <= 'z' || 'A' <= c <= 'Z'
}

/// What parts the steps of a path on a system of the family.
pub open spec fn seps_of(s: Seq<char>, windows: bool) -> Seps {
    if !windows {
        Seps::Slash
    } else if is_verbatim(s) {
        Seps::Backslash
    } else {
        Seps::Either
    }
}

/// How many characters of a Windows path stand for the place that it starts from
/// and are no step of it: a drive (`C:`), a share (`\\server\share`) or a device
/// (`\\.\COM1`); and each of these where it is to be taken word for word
/// (`\\?\C:`, `\\?\UNC\server\share`, `\\?\name`).
pub open spec fn windows_prefix(s: Seq<char>) -> int {
    if is_verbatim(s) {
        if s.len() >= 8 && s[4] == 'U' && s[5] == 'N' && s[6] == 'C' && s[7] == '\\' {
            two_steps_end(s, 8, Seps::Backslash)
        } else {
            step_end(s, 4, Seps::Backslash)
        }
    } else if s.len() >= 2 && Seps::Either.parts(s[0]) && Seps::Either.parts(s[1]) {
        if s.len() >= 4 && s[2] == '.' && Seps::Either.parts(s[3]) {
            step_end(s, 4, Seps::Either)
        } else {
            let server = step_end(s, 2, Seps::Either);
            let share = two_steps_end(s, 2, Seps::Either);
            if server > 2 && share > server + 1 {
                share
            } else {
                0
            }
        }
    } else if s.len() >= 2 && is_drive(s[0]) && s[1] == ':' {
        2
    } else {
        0
    }
}

/// What is left of a path behind the place that it starts from.
pub open spec fn steps_of(path: Seq<char>, windows: bool) -> Seq<char> {
    if windows {
        path.skip(windows_prefix(path))
    } else {
        path
    }
}

/// Where the last step of some begins.
pub open spec fn last_step(s: Seq<char>, seps: Seps) -> int
    decreases s.len(),
{
    if s.len() == 0 || seps.parts(s.last()) {
        s.len() as int
    } else {
        last_step(s.drop_last(), seps)
    }
}

/// The name that some steps end with. What parts steps is passed over at the end,
/// and so are steps that stay in place, unless the path is to be taken word for
/// word; steps that end with a step up name nothing.
pub open spec fn name_at_end(s: Seq<char>, seps: Seps) -> Option<Seq<char>>
    decreases s.len(),
{
    if s.len() == 0 {
        None
    } else {
        let name = s.skip(last_step(s, seps));
        if name.len() == 0 || (name == "."@ && !(seps is Backslash)) {
            name_at_end(s.drop_last(), seps)
        } else if name == "."@ || name == ".."@ {
            None
        } else {
            Some(name)
        }
    }
}

/// The name of the file at the end of a path.
pub open spec fn file_name_of(path: Seq<char>, windows: bool) -> Option<Seq<char>> {
    name_at_end(steps_of(path, windows), seps_of(path, windows))
}

/// The extension of the file at the end of a path: what stands behind the last
/// dot of its name, unless that is the only one and stands in front.
pub open spec fn extension_of(path: Seq<char>, windows: bool) -> Seq<char> {
    match file_name_of(path, windows) {
        Some(name) => match text::last_place(name, '.') {
            Some(i) => if i > 0 {
                name.skip(i + 1)
            } else {
                Seq::empty()
            },
            None => Seq::empty(),
        },
        None => Seq::empty(),
    }
}

fn find_step_end(s: &Vec<char>, from: usize, seps: Seps) -> (r: usize)
    requires
        from <= s@.len(),
    ensures
        r == step_end(s@, from as int, seps),
        from <= r <= s@.len(),
{
    let mut i: usize = from;
    while i < s.len() && !seps.is_one(s[i])
        invariant
            from <= i <= s@.len(),
            step_end(s@, from as int, seps) == step_end(s@, i as int, seps),
        decreases s@.len() - i,
    {
        i += 1;
    }
    i
}

fn find_two_steps_end(s: &Vec<char>, from: usize, seps: Seps) -> (r: usize)
    requires
        from <= s@.len(),
    ensures
        r == two_steps_end(s@, from as int, seps),
        from <= r <= s@.len(),
{
    let first: usize = find_step_end(s, from, seps);
    if first < s.len() {
        find_step_end(s, first + 1, seps)
    } else {
        first
    }
}

fn verbatim(s: &Vec<char>) -> (r: bool)
    ensures
        r == is_verbatim(s@),
{
    s.len() >= 4 && s[0] == '\\' && s[1] == '\\' && s[2] == '?' && s[3] == '\\'
}

fn find_windows_prefix(s: &Vec<char>) -> (r: usize)
    ensures
        r == windows_prefix(s@),
        r <= s@.len(),
{
    if verbatim(s) {
        if s.len() >= 8 && s[4] == 'U' && s[5] == 'N' && s[6] == 'C' && s[7] == '\\' {
            return find_two_steps_end(s, 8, Seps::Backslash);
        }
        return find_step_end(s, 4, Seps::Backslash);
    }
    if s.len() >= 2 && Seps::Either.is_one(s[0]) && Seps::Either.is_one(s[1]) {
        if s.len() >= 4 && s[2] == '.' && Seps::Either.is_one(s[3]) {
            return find_step_end(s, 4, Seps::Either);
        }
        let server: usize = find_step_end(s, 2, Seps::Either);
        let share: usize = find_two_steps_end(s, 2, Seps::Either);
        if server > 2 && share > server && share - server > 1 {
            return share;
        }
        return 0;
    }
    if s.len() >= 2 && (('a' <= s[0] && s[0] <= 'z') || ('A' <= s[0] && s[0] <= 'Z')) && s[1]
        == ':' {
        return 2;
    }
    0
}

fn find_last_step(s: &Vec<char>, from: usize, end: usize, seps: Seps) -> (r: usize)
    requires
        from <= end <= s@.len(),
    ensures
        from <= r <= end,
        r - from == last_step(s@.subrange(from as int, end as int), seps),
{
    let mut i: usize = end;
    let ghost all = s@.subrange(from as int, end as int);
    assert(all.take(i - from) =~= all);
    while i > from && !seps.is_one(s[i - 1])
        invariant
            from <= i <= end <= s@.len(),
            all == s@.subrange(from as int, end as int),
            last_step(all, seps) == last_step(all.take(i - from), seps),
        decreases i,
    {
        assert(all.take(i - from).last() == s@[i - 1]);
        assert(all.take(i - from).drop_last() =~= all.take(i - from - 1));
        i -= 1;
    }
    proof {
        if i > from {
            assert(all.take(i - from).last() == s@[i - 1]);
        }
    }
    i
}

/// The name of the file at the end of a path.
pub fn file_name(path: &str, windows: bool) -> (r: Option<String>)
    ensures
        match r {
            Some(name) => file_name_of(path@, windows) == Some(name@),
            None => file_name_of(path@, windows) is None,
        },
{
    let cs: Vec<char> = text::chars_of(path);
    let seps: Seps = if !windows {
        Seps::Slash
    } else if verbatim(&cs) {
        Seps::Backslash
    } else {
        Seps::Either
    };
    let from: usize = if windows {
        find_windows_prefix(&cs)
    } else {
        0
    };
    let ghost steps = steps_of(path@, windows);
    assert(steps =~= cs@.skip(from as int));
    let mut n: usize = cs.len();
    assert(steps.take(n - from) =~= steps);
    while n > from
        invariant
            from <= n <= cs@.len(),
            steps == cs@.skip(from as int),
            steps == steps_of(path@, windows),
            seps == seps_of(path@, windows),
            name_at_end(steps, seps) == name_at_end(steps.take(n - from), seps),
        decreases n,
    {
        let at: usize = find_last_step(&cs, from, n, seps);
        let name: String = text::slice_of(&cs, at, n);
        proof {
            reveal_strlit(".");
            reveal_strlit("..");
            let now = steps.take(n - from);
            assert(now =~= cs@.subrange(from as int, n as int));
            assert(name@ =~= now.skip(last_step(now, seps)));
            assert(now.drop_last() =~= steps.take(n - from - 1));
        }
        let stays: bool = text::str_eq(name.as_str(), ".");
        let verbatim: bool = match seps {
            Seps::Backslash => true,
            _ => false,
        };
        if n - at > 0 && (!stays || verbatim) {
            if stays || text::str_eq(name.as_str(), "..") {
                return None;
            }
            return Some(name);
        }
        n -= 1;
    }
    assert(steps.take(0).len() == 0);
    None
}

/// The extension of the file at the end of a path.
pub fn extension(path: &str, windows: bool) -> (r: String)
    ensures
        r@ == extension_of(path@, windows),
{
    if let Some(name) = file_name(path, windows) {
        let cs: Vec<char> = text::chars_of(name.as_str());
        if let Some(i) = text::last_index(&cs, '.') {
            if i > 0 {
                assert(i < cs.len());
                let ext: String = text::slice_of(&cs, i + 1, cs.len());
                assert(ext@ =~= cs@.skip(i + 1));
                return ext;
            }
        }
    }
    let none: String = String::new();
    assert(none@ =~= Seq::<char>::empty());
    none
}

// ---------------------------------------------------------------------------
// Laws
// ---------------------------------------------------------------------------
proof fn the_last_step_begins_behind_the_front(front: Seq<char>, tail: Seq<char>, seps: Seps)
    requires
        front.len() == 0 || seps.parts(front.last()),
        forall|i: int| 0 <= i < tail.len() ==> !seps.parts(#[trigger] tail[i]),
    ensures
        last_step(front + tail, seps) == front.len(),
    decreases tail.len(),
{
    let s = front + tail;
    if tail.len() > 0 {
        let init = tail.drop_last();
        assert forall|i: int| 0 <= i < init.len() implies !seps.parts(#[trigger] init[i]) by {
            assert(init[i] == tail[i]);
        }
        the_last_step_begins_behind_the_front(front, init, seps);
        assert(s.drop_last() =~= front + init);
        assert(s.last() == tail[tail.len() - 1]);
    } else {
        assert(s =~= front);
    }
}

/// Whether a text can be the name of a file: it is one step, and none that stays in place
/// or leads up.
pub open spec fn is_name(name: Seq<char>, seps: Seps) -> bool {
    &&& name.len() > 0
    &&& forall|i: int| 0 <= i < name.len() ==> !seps.parts(#[trigger] name[i])
    &&& name != "."@
    &&& name != ".."@
}

/// The name at the end of some steps is the last of them, whatever stands in front; and it
/// still is where something that parts steps stands behind it.
pub proof fn a_name_is_found_at_the_end(
    front: Seq<char>,
    name: Seq<char>,
    seps: Seps,
    sep: char,
)
    requires
        is_name(name, seps),
        front.len() == 0 || seps.parts(front.last()),
        seps.parts(sep),
    ensures
        name_at_end(front + name, seps) == Some(name),
        name_at_end((front + name).push(sep), seps) == Some(name),
{
    let s = front + name;
    the_last_step_begins_behind_the_front(front, name, seps);
    assert(s.skip(front.len() as int) =~= name);
    let t = s.push(sep);
    assert(t.drop_last() =~= s);
    assert(last_step(t, seps) == t.len());
    assert(t.skip(t.len() as int).len() == 0);
}

/// The name of a file is found whatever directories lead to it.
pub proof fn a_file_is_named_by_its_last_step(dir: Seq<char>, name: Seq<char>)
    requires
        is_name(name, Seps::Slash),
    ensures
        file_name_of(dir + "/"@ + name, false) == Some(name),
        file_name_of(name, false) == Some(name),
{
    reveal_strlit("/");
    assert((dir + "/"@).last() == '/');
    a_name_is_found_at_the_end(dir + "/"@, name, Seps::Slash, '/');
    a_name_is_found_at_the_end(Seq::empty(), name, Seps::Slash, '/');
    assert(Seq::<char>::empty() + name =~= name);
}

/// Steps that lead up at the end name nothing.
pub proof fn a_step_up_names_nothing(front: Seq<char>, seps: Seps)
    requires
        front.len() == 0 || seps.parts(front.last()),
    ensures
        name_at_end(front + ".."@, seps) is None,
{
    reveal_strlit("..");
    reveal_strlit(".");
    assert forall|i: int| 0 <= i < ".."@.len() implies !seps.parts(#[trigger] ".."@[i]) by {}
    the_last_step_begins_behind_the_front(front, ".."@, seps);
    let s = front + ".."@;
    assert(s.skip(front.len() as int) =~= ".."@);
    assert(".."@.len() == 2 && "."@.len() == 1);
}

/// The extension of a file is what stands behind the last dot of its name, whatever
/// directories lead to it; a name with no dot but one in front has none.
pub proof fn an_extension_stands_behind_the_last_dot(
    dir: Seq<char>,
    stem: Seq<char>,
    ext: Seq<char>,
)
    requires
        is_name(stem + "."@ + ext, Seps::Slash),
        forall|i: int| 0 <= i < ext.len() ==> #[trigger] ext[i] != '.',
    ensures
        stem.len() > 0 ==> extension_of(dir + "/"@ + (stem + "."@ + ext), false) == ext,
        stem.len() == 0 ==> extension_of(dir + "/"@ + (stem + "."@ + ext), false) == Seq::<
            char,
        >::empty(),
{
    reveal_strlit(".");
    let name = stem + "."@ + ext;
    a_file_is_named_by_its_last_step(dir, name);
    text::the_last_place_is_the_last(name, '.');
    let at = stem.len() as int;
    assert(name[at] == '.');
    assert forall|k: int| at < k < name.len() implies name[k] != '.' by {
        assert(name[k] == ext[k - at - 1]);
    }
    assert(text::last_place(name, '.') == Some(at));
    assert(name.skip(at + 1) =~= ext);
}

/// A drive in front of a Windows path is no step of it, and both kinds of slashes part its
/// steps.
pub proof fn a_drive_is_no_step(drive: char, dir: Seq<char>, name: Seq<char>, sep: char)
    requires
        is_drive(drive),
        is_name(name, Seps::Either),
        sep == '/' || sep == '\\',
    ensures
        file_name_of((seq![drive, ':'] + dir).push(sep) + name, true) == Some(name),
        file_name_of(seq![drive, ':'] + name, true) == Some(name),
{
    let p = (seq![drive, ':'] + dir).push(sep) + name;
    assert(p[0] == drive && p[1] == ':');
    assert(p.skip(2) =~= dir.push(sep) + name);
    a_name_is_found_at_the_end(dir.push(sep), name, Seps::Either, '/');
    let q = seq![drive, ':'] + name;
    assert(q[0] == drive && q[1] == ':');
    assert(q.skip(2) =~= Seq::<char>::empty() + name);
    a_name_is_found_at_the_end(Seq::empty(), name, Seps::Either, '/');
}

proof fn a_step_ends_before_the_next(s: Seq<char>, from: int, to: int, seps: Seps)
    requires
        0 <= from <= to <= s.len(),
        forall|i: int| from <= i < to ==> !seps.parts(#[trigger] s[i]),
        to == s.len() || seps.parts(s[to]),
    ensures
        step_end(s, from, seps) == to,
    decreases to - from,
{
    if from < to {
        assert(!seps.parts(s[from]));
        a_step_ends_before_the_next(s, from + 1, to, seps);
    }
}

/// Whether a text is one step: it is not empty, and nothing in it parts steps.
pub open spec fn is_step(s: Seq<char>, seps: Seps) -> bool {
    s.len() > 0 && forall|i: int| 0 <= i < s.len() ==> !seps.parts(#[trigger] s[i])
}

/// A share in front of a Windows path is no step of it: the name of the file is found behind
/// the server and the share.
pub proof fn a_share_is_no_step(server: Seq<char>, share: Seq<char>, name: Seq<char>)
    requires
        is_step(server, Seps::Either),
        is_step(share, Seps::Either),
        is_name(name, Seps::Either),
        server != "."@,
        server != "?"@,
    ensures
        file_name_of(
            seq!['\\', '\\'] + server + seq!['\\'] + share + seq!['\\'] + name,
            true,
        ) == Some(name),
{
    reveal_strlit(".");
    reveal_strlit("?");
    let p = seq!['\\', '\\'] + server + seq!['\\'] + share + seq!['\\'] + name;
    let a = 2 + server.len() as int;
    let b = a + 1 + share.len() as int;
    assert(p[0] == '\\' && p[1] == '\\');
    assert forall|i: int| 2 <= i < a implies !Seps::Either.parts(#[trigger] p[i]) by {
        assert(p[i] == server[i - 2]);
    }
    assert(p[a] == '\\');
    assert forall|i: int| a + 1 <= i < b implies !Seps::Either.parts(#[trigger] p[i]) by {
        assert(p[i] == share[i - a - 1]);
    }
    assert(p[b] == '\\');
    a_step_ends_before_the_next(p, 2, a, Seps::Either);
    a_step_ends_before_the_next(p, a + 1, b, Seps::Either);
    assert(p[2] == server[0]);
    if server.len() == 1 {
        assert(p[3] == '\\');
        assert(server =~= seq![server[0]]);
        assert("."@ =~= seq!['.'] && "?"@ =~= seq!['?']);
        assert(server[0] != '.' && server[0] != '?');
    } else {
        assert(p[3] == server[1]);
    }
    assert(windows_prefix(p) == b);
    assert(p.skip(b) =~= seq!['\\'] + name);
    a_name_is_found_at_the_end(seq!['\\'], name, Seps::Either, '/');
}

/// In a path that Windows takes word for word, what it starts from is no step of it: a drive
/// or any other place, and a server with its share. Only backslashes part its steps.
pub proof fn a_path_taken_word_for_word_starts_somewhere(
    place: Seq<char>,
    share: Seq<char>,
    name: Seq<char>,
)
    requires
        is_step(place, Seps::Backslash),
        is_step(share, Seps::Backslash),
        is_name(name, Seps::Backslash),
    ensures
        place != seq!['U', 'N', 'C'] ==> file_name_of(
            seq!['\\', '\\', '?', '\\'] + place + seq!['\\'] + name,
            true,
        ) == Some(name),
        file_name_of(
            seq!['\\', '\\', '?', '\\', 'U', 'N', 'C', '\\'] + place + seq!['\\'] + share
                + seq!['\\'] + name,
            true,
        ) == Some(name),
{
    let seps = Seps::Backslash;
    a_name_is_found_at_the_end(seq!['\\'], name, seps, '\\');
    if place != seq!['U', 'N', 'C'] {
        let p = seq!['\\', '\\', '?', '\\'] + place + seq!['\\'] + name;
        let a = 4 + place.len() as int;
        assert forall|i: int| 4 <= i < a implies !seps.parts(#[trigger] p[i]) by {
            assert(p[i] == place[i - 4]);
        }
        assert(p[a] == '\\');
        a_step_ends_before_the_next(p, 4, a, seps);
        if p.len() >= 8 && p[4] == 'U' && p[5] == 'N' && p[6] == 'C' && p[7] == '\\' {
            if place.len() == 3 {
                assert(place[0] == p[4] && place[1] == p[5] && place[2] == p[6]);
                assert(place =~= seq!['U', 'N', 'C']);
            } else if place.len() > 3 {
                assert(p[7] == place[3]);
                assert(!seps.parts(place[3]));
            } else {
                assert(p[a] == '\\');
                assert(a == 5 || a == 6);
            }
            assert(false);
        }
        assert(windows_prefix(p) == a);
        assert(p.skip(a) =~= seq!['\\'] + name);
    }
    let q = seq!['\\', '\\', '?', '\\', 'U', 'N', 'C', '\\'] + place + seq!['\\'] + share
        + seq!['\\'] + name;
    let a = 8 + place.len() as int;
    let b = a + 1 + share.len() as int;
    assert forall|i: int| 8 <= i < a implies !seps.parts(#[trigger] q[i]) by {
        assert(q[i] == place[i - 8]);
    }
    assert(q[a] == '\\');
    assert forall|i: int| a + 1 <= i < b implies !seps.parts(#[trigger] q[i]) by {
        assert(q[i] == share[i - a - 1]);
    }
    assert(q[b] == '\\');
    a_step_ends_before_the_next(q, 8, a, seps);
    a_step_ends_before_the_next(q, a + 1, b, seps);
    assert(windows_prefix(q) == b);
    assert(q.skip(b) =~= seq!['\\'] + name);
}

} // verus!
