//! Checking for a newer release: comparing dotted version numbers and deciding
//! what the user is told about the version the update server announces.
//!
//! Asking the server, downloading and installing are left to the caller.
use vstd::prelude::*;
use std::cmp::Ordering;
use crate::text::{chars_of, push_all, push_str, string_of, text_or_empty, text_or_empty_exec};
use crate::versions::{part_at, part_at_exec, version_parts, version_parts_exec};

verus! {

/// What the update check tells the user.
#[derive(Debug, Clone, PartialEq, Eq)]
pub struct UpdateInfo {
    pub has_update: bool,
    pub version: String,
    pub notes: String,
    pub url: String,
    pub message: String,
}

/// The fields of the server's answer, each when present as a string.
#[derive(Debug, Clone, PartialEq, Eq)]
pub struct VersionReply {
    pub version: Option<String>,
    pub url: Option<String>,
    pub notes: Option<String>,
}

/// Why the server's answer could not be had: the request failed, or its body
/// was not the expected JSON. Each carries the error's text.
#[derive(Debug, Clone, PartialEq, Eq)]
pub enum CheckFailure {
    Request(String),
    Decode(String),
}

/// Whether the parts `pa` come before (-1), equal (0) or after (1) the parts
/// `pb` from position `i` on, a missing part counting as 0.
pub open spec fn version_order(pa: Seq<u32>, pb: Seq<u32>, i: int) -> int
    decreases pa.len() + pb.len() - i,
{
    if i >= pa.len() && i >= pb.len() {
        0
    } else if part_at(pa, i) < part_at(pb, i) {
        -1
    } else if part_at(pa, i) > part_at(pb, i) {
        1
    } else {
        version_order(pa, pb, i + 1)
    }
}

/// How the version `a` compares with `b`: -1, 0 or 1.
pub open spec fn version_compare(a: Seq<char>, b: Seq<char>) -> int {
    version_order(version_parts(a), version_parts(b), 0)
}

pub type UpdateView = (bool, Seq<char>, Seq<char>, Seq<char>, Seq<char>);

pub open spec fn update_view(u: UpdateInfo) -> UpdateView {
    (u.has_update, u.version@, u.notes@, u.url@, u.message@)
}

/// What the update check tells the user, given the server's answer and the version
/// that runs.
pub open spec fn update_answer(reply: Result<VersionReply, CheckFailure>, current: Seq<char>) -> UpdateView {
    match reply {
        Err(CheckFailure::Request(e)) => (false, Seq::empty(), Seq::empty(), Seq::empty(), "检查更新失败："@ + e@),
        Err(CheckFailure::Decode(e)) => (false, Seq::empty(), Seq::empty(), Seq::empty(), "解析版本信息失败："@ + e@),
        Ok(r) => {
            let remote = text_or_empty(r.version);
            let url = text_or_empty(r.url);
            let notes = text_or_empty(r.notes);
            if remote.len() == 0 {
                (false, remote, notes, url, "版本信息无效"@)
            } else if version_compare(remote, current) != 1 {
                (false, remote, notes, url, "当前已是最新版本（v"@ + current + "）"@)
            } else if url.len() == 0 {
                (false, remote, notes, url, "发现新版本 v"@ + remote + "，但下载地址无效"@)
            } else {
                (true, remote, notes, url, "发现新版本 v"@ + remote + "（"@ + notes + "）"@)
            }
        },
    }
}

/// Compares two dotted version numbers part by part, numerically; parts that
/// are not numbers are left out, and a missing part counts as 0.
pub fn compare_versions(a: &str, b: &str) -> (r: Ordering)
    ensures
        match r {
            Ordering::Less => version_compare(a@, b@) == -1,
            Ordering::Equal => version_compare(a@, b@) == 0,
            Ordering::Greater => version_compare(a@, b@) == 1,
        },
{
    let pa = version_parts_exec(a);
    let pb = version_parts_exec(b);
    let len: usize = if pa.len() > pb.len() {
        pa.len()
    } else {
        pb.len()
    };
    let mut i: usize = 0;
    let ghost mut at: int = 0;
    while i < len
        invariant
            i <= len,
            at == i,
            len == pa@.len() || len == pb@.len(),
            pa@.len() <= len,
            pb@.len() <= len,
            pa@ == version_parts(a@),
            pb@ == version_parts(b@),
            version_order(pa@, pb@, at) == version_order(pa@, pb@, 0),
        decreases len - i,
    {
        let va = part_at_exec(&pa, i);
        let vb = part_at_exec(&pb, i);
        if va < vb {
            return Ordering::Less;
        }
        if va > vb {
            return Ordering::Greater;
        }
        i = i + 1;
        proof {
            at = at + 1;
        }
    }
    Ordering::Equal
}

fn info(has_update: bool, version: &Vec<char>, notes: &Vec<char>, url: &Vec<char>, message: &Vec<char>) -> (r: UpdateInfo)
    ensures
        update_view(r) == (has_update, version@, notes@, url@, message@),
{
    UpdateInfo {
        has_update,
        version: string_of(version),
        notes: string_of(notes),
        url: string_of(url),
        message: string_of(message),
    }
}

/// What the update check tells the user, given the server's answer (or why there is
/// none) and the version that runs.
pub fn check(reply: Result<VersionReply, CheckFailure>, current_version: &str) -> (r: UpdateInfo)
    ensures
        update_view(r) == update_answer(reply, current_version@),
{
    let empty: Vec<char> = Vec::new();
    match reply {
        Err(CheckFailure::Request(e)) => {
            let mut m = chars_of("检查更新失败：");
            push_str(&mut m, e.as_str());
            info(false, &empty, &empty, &empty, &m)
        },
        Err(CheckFailure::Decode(e)) => {
            let mut m = chars_of("解析版本信息失败：");
            push_str(&mut m, e.as_str());
            info(false, &empty, &empty, &empty, &m)
        },
        Ok(r) => {
            let remote = text_or_empty_exec(&r.version);
            let url = text_or_empty_exec(&r.url);
            let notes = text_or_empty_exec(&r.notes);
            if remote.len() == 0 {
                let m = chars_of("版本信息无效");
                return info(false, &remote, &notes, &url, &m);
            }
            let remote_str = string_of(&remote);
            let newer = match compare_versions(remote_str.as_str(), current_version) {
                Ordering::Greater => true,
                _ => false,
            };
            if !newer {
                let mut m = chars_of("当前已是最新版本（v");
                push_str(&mut m, current_version);
                push_str(&mut m, "）");
                return info(false, &remote, &notes, &url, &m);
            }
            if url.len() == 0 {
                let mut m = chars_of("发现新版本 v");
                push_all(&mut m, &remote);
                push_str(&mut m, "，但下载地址无效");
                return info(false, &remote, &notes, &url, &m);
            }
            let mut m = chars_of("发现新版本 v");
            push_all(&mut m, &remote);
            push_str(&mut m, "（");
            push_all(&mut m, &notes);
            push_str(&mut m, "）");
            info(true, &remote, &notes, &url, &m)
        },
    }
}

proof fn lemma_order_reflexive(p: Seq<u32>, i: int)
    ensures
        version_order(p, p, i) == 0,
    decreases p.len() + p.len() - i,
{
    if !(i >= p.len()) {
        lemma_order_reflexive(p, i + 1);
    }
}

proof fn lemma_order_antisymmetric(pa: Seq<u32>, pb: Seq<u32>, i: int)
    ensures
        version_order(pa, pb, i) == -version_order(pb, pa, i),
    decreases pa.len() + pb.len() - i,
{
    if !(i >= pa.len() && i >= pb.len()) {
        lemma_order_antisymmetric(pa, pb, i + 1);
    }
}

proof fn lemma_order_transitive(pa: Seq<u32>, pb: Seq<u32>, pc: Seq<u32>, i: int)
    requires
        version_order(pa, pb, i) == -1,
        version_order(pb, pc, i) == -1,
    ensures
        version_order(pa, pc, i) == -1,
    decreases pa.len() + pb.len() + pc.len() - i,
{
    if part_at(pa, i) == part_at(pb, i) && part_at(pb, i) == part_at(pc, i) {
        lemma_order_transitive(pa, pb, pc, i + 1);
    }
}

/// Every version number compares equal to itself.
pub proof fn law_compare_reflexive(a: Seq<char>)
    ensures
        version_compare(a, a) == 0,
{
    lemma_order_reflexive(version_parts(a), 0);
}

/// Swapping the two versions flips the comparison: `a` is newer than `b`
/// exactly when `b` is older than `a`.
pub proof fn law_compare_antisymmetric(a: Seq<char>, b: Seq<char>)
    ensures
        version_compare(a, b) == -version_compare(b, a),
{
    lemma_order_antisymmetric(version_parts(a), version_parts(b), 0);
}

/// Older than is transitive.
pub proof fn law_compare_transitive(a: Seq<char>, b: Seq<char>, c: Seq<char>)
    requires
        version_compare(a, b) == -1,
        version_compare(b, c) == -1,
    ensures
        version_compare(a, c) == -1,
{
    lemma_order_transitive(version_parts(a), version_parts(b), version_parts(c), 0);
}

/// An update is offered only for a version newer than the one that runs, with
/// a download address.
pub proof fn law_update_only_when_newer(reply: Result<VersionReply, CheckFailure>, current: Seq<char>)
    ensures
        update_answer(reply, current).0 ==> reply is Ok && version_compare(
            text_or_empty(reply->Ok_0.version),
            current,
        ) == 1 && text_or_empty(reply->Ok_0.url).len() > 0,
{
}

} // verus!
