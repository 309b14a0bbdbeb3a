//! What the web server decides: which file a request asks for, whether a request may
//! pass or is sent to the login page, the domain names a certificate is asked for, and
//! how the server is stopped. Serving is left to the web framework.
use std::collections::HashMap;
use vstd::prelude::*;
use crate::text::{
    chars_of, parse_unsigned, parse_unsigned_exec, push_char, push_chars, push_str, trim, trimmed,
};

verus! {

broadcast use vstd::std_specs::hash::group_hash_axioms;

/// Why the path of a request is refused: a segment starts or ends with a character that
/// a path segment may not start or end with.
#[derive(PartialEq, Eq, Structural, Clone, Copy, Debug)]
pub enum UriSegmentError {
    BadStart(char),
    BadEnd(char),
}

/// The segments of `tail`, cut at every `/`.
pub open spec fn path_segments(tail: Seq<char>) -> Seq<Seq<char>>
    decreases tail.len(),
{
    if tail.len() == 0 {
        seq![Seq::empty()]
    } else {
        let r = path_segments(tail.drop_last());
        if tail.last() == '/' {
            r.push(Seq::empty())
        } else {
            r.update(r.len() - 1, r.last().push(tail.last()))
        }
    }
}

/// The path after one more segment: `..` goes up one directory (not above the start),
/// an empty segment is skipped, a segment that starts with `.` or `*` or ends with `:`,
/// `>` or `<` is refused, any other is entered.
pub open spec fn path_step(dirs: Seq<Seq<char>>, seg: Seq<char>) -> Result<Seq<Seq<char>>, UriSegmentError> {
    if seg == ".."@ {
        Ok(if dirs.len() > 0 { dirs.drop_last() } else { dirs })
    } else if seg.len() > 0 && seg[0] == '.' {
        Err(UriSegmentError::BadStart('.'))
    } else if seg.len() > 0 && seg[0] == '*' {
        Err(UriSegmentError::BadStart('*'))
    } else if seg.len() > 0 && seg.last() == ':' {
        Err(UriSegmentError::BadEnd(':'))
    } else if seg.len() > 0 && seg.last() == '>' {
        Err(UriSegmentError::BadEnd('>'))
    } else if seg.len() > 0 && seg.last() == '<' {
        Err(UriSegmentError::BadEnd('<'))
    } else if seg.len() == 0 {
        Ok(dirs)
    } else {
        Ok(dirs.push(seg))
    }
}

/// The path that the segments `segs` lead to, taken in order, or the first refusal.
pub open spec fn resolve_path(segs: Seq<Seq<char>>) -> Result<Seq<Seq<char>>, UriSegmentError>
    decreases segs.len(),
{
    if segs.len() == 0 {
        Ok(Seq::empty())
    } else {
        match resolve_path(segs.drop_last()) {
            Err(e) => Err(e),
            Ok(dirs) => path_step(dirs, segs.last()),
        }
    }
}

/// The segments joined with `/`.
pub open spec fn join_path(dirs: Seq<Seq<char>>) -> Seq<char>
    decreases dirs.len(),
{
    if dirs.len() == 0 {
        Seq::empty()
    } else if dirs.len() == 1 {
        dirs[0]
    } else {
        join_path(dirs.drop_last()) + seq!['/'] + dirs.last()
    }
}

/// The file a request for `tail` is answered with: the path that `tail` leads to, taken
/// as a path of the web framework reads it, under the directory `web/`.
pub open spec fn file_for(tail: Seq<char>) -> Result<Seq<char>, UriSegmentError> {
    match resolve_path(path_segments(tail)) {
        Ok(dirs) => Ok("web/"@ + join_path(dirs)),
        Err(e) => Err(e),
    }
}

/// Every segment of the path is a plain name: not empty, without `/`, not starting with
/// `.` (so no `..` either).
pub open spec fn plain_names(dirs: Seq<Seq<char>>) -> bool {
    forall|k: int|
        0 <= k < dirs.len() ==> (#[trigger] dirs[k]).len() > 0 && dirs[k][0] != '.'
            && !dirs[k].contains('/')
}

proof fn lemma_segments_have_no_slash(tail: Seq<char>)
    ensures
        path_segments(tail).len() > 0,
        forall|k: int| 0 <= k < path_segments(tail).len() ==> !(#[trigger] path_segments(tail)[k]).contains('/'),
    decreases tail.len(),
{
    if tail.len() > 0 {
        lemma_segments_have_no_slash(tail.drop_last());
        let r = path_segments(tail.drop_last());
        if tail.last() != '/' {
            assert forall|k: int| 0 <= k < path_segments(tail).len() implies !(#[trigger] path_segments(tail)[k]).contains('/') by {
                if k == r.len() - 1 {
                    let last = r.last().push(tail.last());
                    if last.contains('/') {
                        let j = choose|j: int| 0 <= j < last.len() && last[j] == '/';
                        assert(r.last()[j] == '/');
                    }
                }
            }
        } else {
            assert forall|k: int| 0 <= k < path_segments(tail).len() implies !(#[trigger] path_segments(tail)[k]).contains('/') by {
                if k == r.len() {
                    assert(path_segments(tail)[k] =~= Seq::<char>::empty());
                }
            }
        }
    }
}

proof fn lemma_resolve_plain(segs: Seq<Seq<char>>)
    requires
        forall|k: int| 0 <= k < segs.len() ==> !(#[trigger] segs[k]).contains('/'),
    ensures
        resolve_path(segs) matches Ok(dirs) ==> plain_names(dirs),
    decreases segs.len(),
{
    if segs.len() > 0 {
        lemma_resolve_plain(segs.drop_last());
        assert(!segs[segs.len() - 1].contains('/'));
    }
}

/// A request never reaches a file outside `web/`: the path it is answered with is
/// `web/` followed by plain names, none of them `..`, none starting with `/`.
pub proof fn lemma_files_stay_in_web(tail: Seq<char>)
    ensures
        file_for(tail) matches Ok(path) ==> exists|dirs: Seq<Seq<char>>|
            plain_names(dirs) && path == "web/"@ + join_path(dirs),
{
    lemma_segments_have_no_slash(tail);
    lemma_resolve_plain(path_segments(tail));
    if let Ok(dirs) = resolve_path(path_segments(tail)) {
        assert(plain_names(dirs));
    }
}

/// The segments held so far, as character sequences.
pub open spec fn dirs_view(dirs: Seq<Vec<char>>) -> Seq<Seq<char>> {
    dirs.map_values(|d: Vec<char>| d@)
}

fn path_step_exec(dirs: &mut Vec<Vec<char>>, seg: Vec<char>) -> (r: Result<(), UriSegmentError>)
    ensures
        match path_step(dirs_view(old(dirs)@), seg@) {
            Ok(d) => r is Ok && dirs_view(final(dirs)@) == d,
            Err(e) => r == Err::<(), UriSegmentError>(e),
        },
{
    let n = seg.len();
    proof {
        reveal_strlit("..");
    }
    if n == 2 && seg[0] == '.' && seg[1] == '.' {
        assert(seg@ =~= ".."@);
        if dirs.len() > 0 {
            dirs.pop();
            assert(dirs_view(dirs@) =~= dirs_view(old(dirs)@).drop_last());
        }
        return Ok(());
    }
    assert(seg@ != ".."@) by {
        if seg@ == ".."@ {
            assert(seg@[0] == '.' && seg@[1] == '.');
        }
    }
    if n > 0 && seg[0] == '.' {
        return Err(UriSegmentError::BadStart('.'));
    }
    if n > 0 && seg[0] == '*' {
        return Err(UriSegmentError::BadStart('*'));
    }
    if n > 0 && seg[n - 1] == ':' {
        return Err(UriSegmentError::BadEnd(':'));
    }
    if n > 0 && seg[n - 1] == '>' {
        return Err(UriSegmentError::BadEnd('>'));
    }
    if n > 0 && seg[n - 1] == '<' {
        return Err(UriSegmentError::BadEnd('<'));
    }
    if n == 0 {
        return Ok(());
    }
    let ghost before = dirs@;
    dirs.push(seg);
    assert(dirs_view(dirs@) =~= dirs_view(before).push(dirs@.last()@));
    Ok(())
}

/// The path of the file that a request for `tail` is answered with, or why the request
/// is refused.
pub fn index(tail: &str) -> (r: Result<String, UriSegmentError>)
    ensures
        match file_for(tail@) {
            Ok(path) => r matches Ok(p) && p@ == path,
            Err(e) => r == Err::<String, UriSegmentError>(e),
        },
{
    let s = chars_of(tail);
    let n = s.len();
    let mut dirs: Vec<Vec<char>> = Vec::new();
    let mut failed: Option<UriSegmentError> = None;
    let mut cur: Vec<char> = Vec::new();
    let ghost mut done: Seq<Seq<char>> = Seq::empty();
    let mut i: usize = 0;
    assert(s@.take(0) =~= Seq::<char>::empty());
    assert(path_segments(Seq::<char>::empty()) =~= done.push(cur@));
    while i < n
        invariant
            n == s@.len(),
            s@ == tail@,
            i <= n,
            path_segments(s@.take(i as int)) == done.push(cur@),
            match resolve_path(done) {
                Ok(d) => failed is None && dirs_view(dirs@) == d,
                Err(e) => failed == Some(e),
            },
        decreases n - i,
    {
        proof {
            assert(s@.take(i + 1).drop_last() =~= s@.take(i as int));
            assert(s@.take(i + 1).last() == s@[i as int]);
        }
        let c = s[i];
        if c == '/' {
            let ghost seg = cur@;
            proof {
                assert(done.push(seg).drop_last() =~= done);
            }
            if failed.is_none() {
                let mut piece: Vec<char> = Vec::new();
                std::mem::swap(&mut piece, &mut cur);
                match path_step_exec(&mut dirs, piece) {
                    Ok(()) => {},
                    Err(e) => {
                        failed = Some(e);
                    },
                }
            } else {
                cur = Vec::new();
            }
            proof {
                done = done.push(seg);
                assert(path_segments(s@.take(i + 1)) =~= done.push(Seq::<char>::empty()));
            }
        } else {
            let ghost before = cur@;
            cur.push(c);
            proof {
                assert(done.push(before).update(done.len() as int, before.push(c)) =~= done.push(cur@));
            }
        }
        i = i + 1;
    }
    assert(s@.take(n as int) =~= s@);
    let ghost last = cur@;
    proof {
        assert(done.push(last).drop_last() =~= done);
    }
    if failed.is_none() {
        match path_step_exec(&mut dirs, cur) {
            Ok(()) => {},
            Err(e) => {
                return Err(e);
            },
        }
    } else {
        match failed {
            Some(e) => {
                return Err(e);
            },
            None => {},
        }
    }
    let mut path = String::new();
    push_str(&mut path, "web/");
    let mut k: usize = 0;
    assert(dirs_view(dirs@).take(0) =~= Seq::<Seq<char>>::empty());
    while k < dirs.len()
        invariant
            k <= dirs@.len(),
            path@ == "web/"@ + join_path(dirs_view(dirs@).take(k as int)),
        decreases dirs@.len() - k,
    {
        proof {
            assert(dirs_view(dirs@).take(k + 1).drop_last() =~= dirs_view(dirs@).take(k as int));
        }
        if k > 0 {
            push_char(&mut path, '/');
        }
        push_chars(&mut path, dirs[k].as_slice());
        proof {
            assert(dirs_view(dirs@).take(k + 1).last() == dirs@[k as int]@);
            if k == 0 {
                assert(dirs_view(dirs@).take(1) =~= seq![dirs@[0]@]);
            }
        }
        k = k + 1;
        assert(path@ =~= "web/"@ + join_path(dirs_view(dirs@).take(k as int)));
    }
    assert(dirs_view(dirs@).take(dirs@.len() as int) =~= dirs_view(dirs@));
    Ok(path)
}

/// The answer to a request for `goodby.html`.
pub fn goodby() -> (text: &'static str)
    ensures
        text@ == "Goodby!"@,
{
    "Goodby!"
}

/// How the server is asked to stop.
pub struct StopRequest {
    /// Finish the requests being handled first.
    pub graceful: bool,
    /// How long to wait for the server to answer.
    pub timeout_secs: u64,
}

/// The request that stops the server: gracefully, waiting five seconds for its answer.
pub fn stop() -> (r: StopRequest)
    ensures
        r.graceful,
        r.timeout_secs == 5,
{
    StopRequest { graceful: true, timeout_secs: 5 }
}

/// The port on which the domain is proven for a certificate, from the operator's
/// answer, white space around it aside. Run as root the server takes port 80 itself,
/// once the answer is `y` (the router forwards port 80 to this machine); otherwise
/// the answer is the number of the port that port 80 is forwarded to.
pub open spec fn port_answer(root: bool, answer: Seq<char>) -> Result<u32, ()> {
    let a = trimmed(answer);
    if root {
        if a == "y"@ {
            Ok(80)
        } else {
            Err(())
        }
    } else {
        match parse_unsigned(a, u32::MAX as nat) {
            Some(v) => Ok(v as u32),
            None => Err(()),
        }
    }
}

/// The port on which the domain is proven for a certificate, from the operator's
/// answer to the question the server asks (which depends on `root`).
pub fn port_from_answer(root: bool, answer: &str) -> (r: Result<u32, ()>)
    ensures
        r == port_answer(root, answer@),
{
    let chars = chars_of(answer);
    let a = trim(&chars);
    if root {
        if crate::bot::same_text(a.as_slice(), "y") {
            Ok(80)
        } else {
            Err(())
        }
    } else {
        match parse_unsigned_exec(a.as_slice(), 0xffff_ffff) {
            Some(v) => Ok(v as u32),
            None => Err(()),
        }
    }
}

/// The two names a certificate is asked for: with and without `www.` in front. Where
/// `domain` starts with `www.`, the first is `www.` alone, as the name is split there.
pub fn make_domain_list(domain: &str) -> (r: (String, String))
    ensures
        domain@.len() >= 4 && domain@.take(4) == "www."@ ==> r.0@ == domain@.take(4) && r.1@
            == domain@.skip(4),
        !(domain@.len() >= 4 && domain@.take(4) == "www."@) ==> r.0@ == "www."@ + domain@
            && r.1@ == domain@,
{
    let chars = chars_of(domain);
    let starts = chars.len() >= 4 && crate::bot::same_text(
        crate::alarm_args::slice(&chars, 0, 4).as_slice(),
        "www.",
    );
    proof {
        if chars@.len() >= 4 {
            assert(chars@.subrange(0, 4) =~= domain@.take(4));
        }
    }
    if starts {
        let first = crate::text::string_of(crate::alarm_args::slice(&chars, 0, 4).as_slice());
        let second = crate::text::string_of(
            crate::alarm_args::slice(&chars, 4, chars.len()).as_slice(),
        );
        proof {
            assert(chars@.subrange(4, chars@.len() as int) =~= domain@.skip(4));
        }
        (first, second)
    } else {
        let mut first = String::new();
        push_str(&mut first, "www.");
        push_str(&mut first, domain);
        let second = crate::text::string_of(chars.as_slice());
        (first, second)
    }
}

/// Logs every request it passes on.
pub struct SayHiTransform;

pub struct SayHiMiddleware<S> {
    pub service: S,
}

impl SayHiTransform {
    /// Puts the logging in front of `service`.
    pub fn new_transform<S>(&self, service: S) -> (m: SayHiMiddleware<S>)
        ensures
            m.service == service,
    {
        SayHiMiddleware { service }
    }
}

impl<S> SayHiMiddleware<S> {
    /// The line logged for a request of `path`.
    pub fn greeting(&self, path: &str) -> (line: String)
        ensures
            line@ == "You requested: "@ + path@,
    {
        let mut line = String::new();
        push_str(&mut line, "You requested: ");
        push_str(&mut line, path);
        line
    }
}

/// Lets only requests of logged-in users through.
pub struct CheckLogin {}

pub struct CheckLoginMiddleware<S> {
    pub service: S,
}

impl CheckLogin {
    /// Puts the login check in front of `service`.
    pub fn new_transform<S>(&self, service: S) -> (m: CheckLoginMiddleware<S>)
        ensures
            m.service == service,
    {
        CheckLoginMiddleware { service }
    }
}

/// The identity `id` is the number of an open session.
pub open spec fn logged_in<V>(sessions: Map<u16, V>, id: Seq<char>) -> bool {
    match parse_unsigned(id, u16::MAX as nat) {
        Some(n) => sessions.contains_key(n as u16),
        None => false,
    }
}

/// Whether the identity `id` is the number of an open session.
pub fn is_logged_in<V>(sessions: &HashMap<u16, V>, id: &str) -> (r: Result<(), ()>)
    ensures
        r is Ok <==> logged_in(sessions@, id@),
{
    let chars = chars_of(id);
    match parse_unsigned_exec(chars.as_slice(), u16::MAX as u64) {
        Some(n) => {
            if sessions.contains_key(&(n as u16)) {
                Ok(())
            } else {
                Err(())
            }
        },
        None => Err(()),
    }
}

/// What happens to a request.
pub enum LoginCheck {
    /// The request goes on to the service.
    Pass,
    /// The client is sent to this address.
    Redirect(String),
}

impl<S> CheckLoginMiddleware<S> {
    /// A request of `path` whose identity is a logged-in session passes; any other is
    /// sent to `/login` followed by the path.
    pub fn call<V>(&self, identity: Option<&str>, sessions: &HashMap<u16, V>, path: &str) -> (r:
        LoginCheck)
        ensures
            match identity {
                Some(id) if logged_in(sessions@, id@) => r is Pass,
                _ => r matches LoginCheck::Redirect(to) && to@ == "/login"@ + path@,
            },
    {
        if let Some(id) = identity {
            match is_logged_in(sessions, id) {
                Ok(()) => {
                    return LoginCheck::Pass;
                },
                Err(()) => {},
            }
        }
        let mut to = String::new();
        push_str(&mut to, "/login");
        push_str(&mut to, path);
        LoginCheck::Redirect(to)
    }
}

} // verus!
