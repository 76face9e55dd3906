//! What the onnxruntime set-up found: the record the transcription
//! pipeline quotes when a model will not load.

use vstd::prelude::*;
use crate::text::push_str;

verus! {

/// Snapshot of the onnxruntime initialisation.
#[derive(Debug, Clone)]
pub struct OrtStatus {
    /// The runtime was loaded and committed.
    pub initialized: bool,
    /// The library that was loaded, when one was.
    pub dylib_path: Option<String>,
    /// Every location looked at, in order.
    pub searched: Vec<String>,
    /// Why initialisation failed, when it did.
    pub error: Option<String>,
}

/// `parts` joined with `", "`.
pub open spec fn spec_join_comma(parts: Seq<Seq<char>>) -> Seq<char>
    decreases parts.len(),
{
    if parts.len() == 0 {
        Seq::empty()
    } else if parts.len() == 1 {
        parts[0]
    } else {
        spec_join_comma(parts.drop_last()) + ", "@ + parts.last()
    }
}

impl OrtStatus {
    /// The one-line diagnostic an error message quotes.
    pub open spec fn spec_diagnostic(&self) -> Seq<char> {
        if self.initialized {
            match self.dylib_path {
                Some(p) => "onnxruntime loaded from "@ + p@,
                None => "onnxruntime initialized (path unknown)"@,
            }
        } else {
            match self.error {
                Some(err) => {
                    let head = "onnxruntime NOT loaded: "@ + err@;
                    if self.searched@.len() > 0 {
                        head + " \u{2014} searched: "@ + spec_join_comma(
                            self.searched@.map_values(|p: String| p@),
                        )
                    } else {
                        head
                    }
                },
                None => "onnxruntime init not run yet"@,
            }
        }
    }

    /// One-line diagnostic for inclusion in an error message.
    pub fn diagnostic(&self) -> (r: String)
        ensures
            r@ == self.spec_diagnostic(),
    {
        if self.initialized {
            match &self.dylib_path {
                Some(p) => {
                    let mut s = String::new();
                    push_str(&mut s, "onnxruntime loaded from ");
                    push_str(&mut s, p.as_str());
                    proof {
                        assert(s@ =~= "onnxruntime loaded from "@ + p@) by {
                            reveal_strlit("");
                        }
                    }
                    s
                },
                None => "onnxruntime initialized (path unknown)".to_string(),
            }
        } else {
            match &self.error {
                Some(err) => {
                    let mut s = String::new();
                    push_str(&mut s, "onnxruntime NOT loaded: ");
                    push_str(&mut s, err.as_str());
                    proof {
                        assert(s@ =~= "onnxruntime NOT loaded: "@ + err@) by {
                            reveal_strlit("");
                        }
                    }
                    if self.searched.len() > 0 {
                        push_str(&mut s, " \u{2014} searched: ");
                        let ghost head = s@;
                        let ghost ps = self.searched@.map_values(|p: String| p@);
                        let mut i: usize = 0;
                        while i < self.searched.len()
                            invariant
                                i <= self.searched@.len(),
                                self.searched@.len() > 0,
                                ps == self.searched@.map_values(|p: String| p@),
                                s@ == head + spec_join_comma(ps.take(i as int)),
                            decreases self.searched.len() - i,
                        {
                            let ghost before = s@;
                            proof {
                                let t = ps.take(i as int + 1);
                                assert(t.drop_last() =~= ps.take(i as int));
                                assert(t.last() == self.searched@[i as int]@);
                            }
                            if i > 0 {
                                push_str(&mut s, ", ");
                            }
                            push_str(&mut s, self.searched[i].as_str());
                            proof {
                                let t = ps.take(i as int + 1);
                                if i == 0 {
                                    assert(ps.take(0) =~= Seq::<Seq<char>>::empty());
                                    assert(spec_join_comma(t) == t[0]);
                                    assert(s@ =~= head + spec_join_comma(t));
                                } else {
                                    assert(s@ =~= head + spec_join_comma(t));
                                }
                            }
                            i = i + 1;
                        }
                        proof {
                            assert(ps.take(i as int) =~= ps);
                        }
                    }
                    s
                },
                None => "onnxruntime init not run yet".to_string(),
            }
        }
    }
}

/// The status before `initialize` has recorded one: not initialised, with
/// a note that initialisation has not run.
pub fn status() -> (r: OrtStatus)
    ensures
        !r.initialized,
        r.dylib_path is None,
        r.searched@.len() == 0,
        r.error is Some,
        r.error->0@ == "ort_setup::initialize() has not been called"@,
{
    OrtStatus {
        initialized: false,
        dylib_path: None,
        searched: Vec::new(),
        error: Some("ort_setup::initialize() has not been called".to_string()),
    }
}

/// The first location found on disk, given whether each exists.
pub fn first_existing(exists: &[bool]) -> (r: Option<usize>)
    ensures
        match r {
            Some(i) => i < exists@.len() && exists@[i as int] && forall|j: int| 0 <= j < i ==> !exists@[j],
            None => forall|j: int| 0 <= j < exists@.len() ==> !exists@[j],
        },
{
    let mut i: usize = 0;
    while i < exists.len()
        invariant
            i <= exists@.len(),
            forall|j: int| 0 <= j < i ==> !exists@[j],
        decreases exists@.len() - i,
    {
        if exists[i] {
            return Some(i);
        }
        i = i + 1;
    }
    None
}

/// The error when no location holds the library.
pub open spec fn not_found_error(n: nat) -> Seq<char> {
    "couldn't find onnxruntime \u{2014} checked "@ + crate::iso::spec_dec(n) + " location(s)"@
}

/// The error when the library at `path` does not load.
pub open spec fn load_error(path: Seq<char>, e: Seq<char>) -> Seq<char> {
    "ort::init_from("@ + path + ") failed: "@ + e
        + " \u{2014} likely a version / arch mismatch (ort api-22 needs onnxruntime \u{2265}1.20)"@
}

/// The status and log line of an initialisation: `found` is the library
/// found on disk with the error its loading gave, if any. Not found or
/// not loaded leaves the runtime uninitialised with the error as the
/// log line; loaded records its path.
pub open spec fn spec_init_status(
    searched: Seq<Seq<char>>,
    found: Option<(Seq<char>, Option<Seq<char>>)>,
) -> (bool, Option<Seq<char>>, Seq<Seq<char>>, Option<Seq<char>>, Seq<char>) {
    match found {
        None => (false, None, searched, Some(not_found_error(searched.len())), not_found_error(searched.len())),
        Some((p, None)) => (true, Some(p), searched, None, "onnxruntime loaded from "@ + p),
        Some((p, Some(e))) => (false, None, searched, Some(load_error(p, e)), load_error(p, e)),
    }
}

pub open spec fn status_view(st: OrtStatus, line: String) -> (bool, Option<Seq<char>>, Seq<Seq<char>>, Option<Seq<char>>, Seq<char>) {
    (
        st.initialized,
        match st.dylib_path {
            Some(p) => Some(p@),
            None => None,
        },
        st.searched@.map_values(|p: String| p@),
        match st.error {
            Some(e) => Some(e@),
            None => None,
        },
        line@,
    )
}

pub open spec fn found_view(found: Option<(String, Option<String>)>) -> Option<(Seq<char>, Option<Seq<char>>)> {
    match found {
        Some((p, e)) => Some((p@, match e {
            Some(t) => Some(t@),
            None => None,
        })),
        None => None,
    }
}

fn copy_string(s: &String) -> (r: String)
    ensures
        r@ == s@,
{
    s.clone()
}

/// The status `initialize` records, and the line it logs, from the
/// locations searched and what was found and loaded there.
pub fn init_status(searched: Vec<String>, found: Option<(String, Option<String>)>) -> (r: (OrtStatus, String))
    ensures
        status_view(r.0, r.1) == spec_init_status(searched@.map_values(|p: String| p@), found_view(found)),
{
    let n = searched.len();
    match found {
        None => {
            let ds = crate::iso::dec_chars(n as u128);
            let a = crate::text::concat("couldn't find onnxruntime \u{2014} checked ", crate::text::string_of(ds.as_slice()).as_str());
            let err = crate::text::concat(a.as_str(), " location(s)");
            let line = copy_string(&err);
            (OrtStatus { initialized: false, dylib_path: None, searched, error: Some(err) }, line)
        },
        Some((p, None)) => {
            let line = crate::text::concat("onnxruntime loaded from ", p.as_str());
            (OrtStatus { initialized: true, dylib_path: Some(p), searched, error: None }, line)
        },
        Some((p, Some(e))) => {
            let a = crate::text::concat("ort::init_from(", p.as_str());
            let b = crate::text::concat(a.as_str(), ") failed: ");
            let c = crate::text::concat(b.as_str(), e.as_str());
            let err = crate::text::concat(
                c.as_str(),
                " \u{2014} likely a version / arch mismatch (ort api-22 needs onnxruntime \u{2265}1.20)",
            );
            let line = copy_string(&err);
            (OrtStatus { initialized: false, dylib_path: None, searched, error: Some(err) }, line)
        },
    }
}

/// The platform the runtime library is looked for on.
#[derive(Debug, Clone, Copy, PartialEq, Eq, Structural)]
pub enum TargetOs {
    MacOs,
    Linux,
    Windows,
}

/// The file names the runtime library goes by.
pub open spec fn spec_dylib_filenames(os: TargetOs) -> Seq<Seq<char>> {
    match os {
        TargetOs::MacOs => seq!["libonnxruntime.dylib"@, "libonnxruntime.1.dylib"@],
        TargetOs::Linux => seq!["libonnxruntime.so"@, "libonnxruntime.so.1"@],
        TargetOs::Windows => seq!["onnxruntime.dll"@],
    }
}

/// Where a system-wide install puts the runtime library.
pub open spec fn spec_system_lib_dirs(os: TargetOs) -> Seq<Seq<char>> {
    match os {
        TargetOs::MacOs => seq![
            "/opt/homebrew/lib"@,
            "/opt/homebrew/opt/onnxruntime/lib"@,
            "/usr/local/lib"@,
            "/usr/local/opt/onnxruntime/lib"@,
        ],
        TargetOs::Linux => seq![
            "/usr/lib"@,
            "/usr/local/lib"@,
            "/usr/lib/x86_64-linux-gnu"@,
            "/usr/lib/aarch64-linux-gnu"@,
        ],
        TargetOs::Windows => seq![
            "C:\\Program Files\\onnxruntime\\bin"@,
            "C:\\Program Files\\onnxruntime\\lib"@,
        ],
    }
}

fn strings2(a: &str, b: &str) -> (r: Vec<String>)
    ensures
        crate::sorted::views(r@) == seq![a@, b@],
{
    let mut v: Vec<String> = Vec::new();
    v.push(a.to_string());
    v.push(b.to_string());
    proof {
        assert(crate::sorted::views(v@) =~= seq![a@, b@]);
    }
    v
}

fn strings4(a: &str, b: &str, c: &str, d: &str) -> (r: Vec<String>)
    ensures
        crate::sorted::views(r@) == seq![a@, b@, c@, d@],
{
    let mut v: Vec<String> = Vec::new();
    v.push(a.to_string());
    v.push(b.to_string());
    v.push(c.to_string());
    v.push(d.to_string());
    proof {
        assert(crate::sorted::views(v@) =~= seq![a@, b@, c@, d@]);
    }
    v
}

pub fn dylib_filenames(os: TargetOs) -> (r: Vec<String>)
    ensures
        crate::sorted::views(r@) == spec_dylib_filenames(os),
{
    match os {
        TargetOs::MacOs => strings2("libonnxruntime.dylib", "libonnxruntime.1.dylib"),
        TargetOs::Linux => strings2("libonnxruntime.so", "libonnxruntime.so.1"),
        TargetOs::Windows => {
            let mut v: Vec<String> = Vec::new();
            v.push("onnxruntime.dll".to_string());
            proof {
                assert(crate::sorted::views(v@) =~= seq!["onnxruntime.dll"@]);
            }
            v
        },
    }
}

pub fn system_lib_dirs(os: TargetOs) -> (r: Vec<String>)
    ensures
        crate::sorted::views(r@) == spec_system_lib_dirs(os),
{
    match os {
        TargetOs::MacOs => strings4(
            "/opt/homebrew/lib",
            "/opt/homebrew/opt/onnxruntime/lib",
            "/usr/local/lib",
            "/usr/local/opt/onnxruntime/lib",
        ),
        TargetOs::Linux => strings4(
            "/usr/lib",
            "/usr/local/lib",
            "/usr/lib/x86_64-linux-gnu",
            "/usr/lib/aarch64-linux-gnu",
        ),
        TargetOs::Windows => strings2(
            "C:\\Program Files\\onnxruntime\\bin",
            "C:\\Program Files\\onnxruntime\\lib",
        ),
    }
}

/// A file name under an absolute directory, as the platform's
/// `Path::join` writes it: with `\` on Windows (none when the directory
/// already ends with a separator), as [`crate::text::spec_join`]
/// elsewhere.
pub open spec fn spec_join_native(os: TargetOs, dir: Seq<char>, name: Seq<char>) -> Seq<char> {
    match os {
        TargetOs::Windows => if dir.len() == 0 {
            name
        } else if dir.last() == '\\' || dir.last() == '/' {
            dir + name
        } else {
            dir + seq!['\\'] + name
        },
        _ => crate::text::spec_join(dir, name),
    }
}

fn join_native(os: TargetOs, dir: &str, name: &str) -> (r: String)
    ensures
        r@ == spec_join_native(os, dir@, name@),
{
    match os {
        TargetOs::Windows => {
            let d = crate::text::chars_of(dir);
            if d.len() == 0 {
                return name.to_string();
            }
            let mut out = dir.to_string();
            if d[d.len() - 1] != '\\' && d[d.len() - 1] != '/' {
                crate::text::push_char(&mut out, '\\');
            }
            push_str(&mut out, name);
            out
        },
        _ => crate::text::join_path(dir, name),
    }
}

/// Each name under `dir`, in order.
pub open spec fn under(os: TargetOs, dir: Seq<char>, names: Seq<Seq<char>>) -> Seq<Seq<char>> {
    names.map_values(|n: Seq<char>| spec_join_native(os, dir, n))
}

/// Each name under each directory, directory by directory.
pub open spec fn under_all(os: TargetOs, dirs: Seq<Seq<char>>, names: Seq<Seq<char>>) -> Seq<Seq<char>>
    decreases dirs.len(),
{
    if dirs.len() == 0 {
        Seq::empty()
    } else {
        under_all(os, dirs.drop_last(), names) + under(os, dirs.last(), names)
    }
}

/// Where to look for the runtime library, in priority order: a non-empty
/// `ORT_DYLIB_PATH`, then next to the executable (and, on macOS, the
/// bundle's `Resources` and `Frameworks` beside its `MacOS` directory),
/// then the system directories.
pub open spec fn spec_candidate_paths(
    os: TargetOs,
    env_override: Option<Seq<char>>,
    exe_dir: Option<Seq<char>>,
    bundle_dir: Option<Seq<char>>,
) -> Seq<Seq<char>> {
    let names = spec_dylib_filenames(os);
    let first: Seq<Seq<char>> = match env_override {
        Some(p) => if p.len() > 0 {
            seq![p]
        } else {
            Seq::empty()
        },
        None => Seq::empty(),
    };
    let beside: Seq<Seq<char>> = match exe_dir {
        Some(d) => under(os, d, names) + match (os, bundle_dir) {
            (TargetOs::MacOs, Some(b)) => under(os, spec_join_native(os, b, "Resources"@), names)
                + under(os, spec_join_native(os, b, "Frameworks"@), names),
            _ => Seq::empty(),
        },
        None => Seq::empty(),
    };
    first + beside + under_all(os, spec_system_lib_dirs(os), names)
}

fn push_under(out: &mut Vec<String>, os: TargetOs, dir: &str, names: &Vec<String>)
    ensures
        crate::sorted::views(final(out)@) == crate::sorted::views(old(out)@) + under(
            os,
            dir@,
            crate::sorted::views(names@),
        ),
{
    let ghost start = crate::sorted::views(out@);
    let ghost nv = crate::sorted::views(names@);
    let mut i: usize = 0;
    proof {
        assert(start + under(os, dir@, nv.take(0)) =~= start);
    }
    while i < names.len()
        invariant
            i <= names@.len(),
            nv == crate::sorted::views(names@),
            crate::sorted::views(out@) == start + under(os, dir@, nv.take(i as int)),
        decreases names.len() - i,
    {
        let p = join_native(os, dir, names[i].as_str());
        let ghost before = crate::sorted::views(out@);
        out.push(p);
        proof {
            assert(crate::sorted::views(out@) =~= before.push(p@));
            assert(nv.take(i as int + 1) =~= nv.take(i as int).push(nv[i as int]));
            assert(under(os, dir@, nv.take(i as int + 1)) =~= under(os, dir@, nv.take(i as int)).push(
                spec_join_native(os, dir@, nv[i as int]),
            ));
        }
        i = i + 1;
    }
    proof {
        assert(nv.take(i as int) =~= nv);
    }
}

/// The places to look for the runtime library. `env_override` is the
/// value of `ORT_DYLIB_PATH`, `exe_dir` the directory of the running
/// executable and `bundle_dir` the one above it.
pub fn candidate_paths(os: TargetOs, env_override: Option<&str>, exe_dir: Option<&str>, bundle_dir: Option<&str>) -> (r: Vec<
    String,
>)
    ensures
        crate::sorted::views(r@) == spec_candidate_paths(
            os,
            match env_override {
                Some(p) => Some(p@),
                None => None,
            },
            match exe_dir {
                Some(d) => Some(d@),
                None => None,
            },
            match bundle_dir {
                Some(b) => Some(b@),
                None => None,
            },
        ),
{
    let names = dylib_filenames(os);
    let mut out: Vec<String> = Vec::new();
    proof {
        assert(crate::sorted::views(out@) =~= Seq::<Seq<char>>::empty());
    }
    match env_override {
        Some(p) => {
            if !p.is_empty() {
                out.push(p.to_string());
                proof {
                    assert(crate::sorted::views(out@) =~= seq![p@]);
                }
            }
        },
        None => {},
    }
    let ghost first = crate::sorted::views(out@);
    match exe_dir {
        Some(d) => {
            push_under(&mut out, os, d, &names);
            match (os, bundle_dir) {
                (TargetOs::MacOs, Some(b)) => {
                    let res = join_native(os, b, "Resources");
                    push_under(&mut out, os, res.as_str(), &names);
                    let fw = join_native(os, b, "Frameworks");
                    push_under(&mut out, os, fw.as_str(), &names);
                },
                _ => {},
            }
        },
        None => {},
    }
    let ghost second = crate::sorted::views(out@);
    let dirs = system_lib_dirs(os);
    let ghost dv = crate::sorted::views(dirs@);
    let mut k: usize = 0;
    proof {
        assert(dv.take(0) =~= Seq::<Seq<char>>::empty());
        assert(second + under_all(os, dv.take(0), crate::sorted::views(names@)) =~= second);
    }
    while k < dirs.len()
        invariant
            k <= dirs@.len(),
            dv == crate::sorted::views(dirs@),
            crate::sorted::views(out@) == second + under_all(os, dv.take(k as int), crate::sorted::views(names@)),
        decreases dirs.len() - k,
    {
        let ghost before = crate::sorted::views(out@);
        push_under(&mut out, os, dirs[k].as_str(), &names);
        proof {
            let q = dv.take(k as int + 1);
            assert(q.drop_last() =~= dv.take(k as int));
            assert(q.last() == dirs@[k as int]@);
        }
        k = k + 1;
    }
    proof {
        assert(dv.take(k as int) =~= dv);
        reveal_strlit("Resources");
        reveal_strlit("Frameworks");
        assert(crate::sorted::views(out@) =~= spec_candidate_paths(
            os,
            match env_override {
                Some(p) => Some(p@),
                None => None,
            },
            match exe_dir {
                Some(d) => Some(d@),
                None => None,
            },
            match bundle_dir {
                Some(b) => Some(b@),
                None => None,
            },
        ));
    }
    out
}

} // verus!
