use vstd::prelude::*;

use crate::text::{chars_of, is_whitespace, is_ws, parse_u32, parse_u32_spec, slice_vec, string_of};

verus! {

/// Hours between two background checks for a new release.
pub const UPDATE_CHECK_INTERVAL_HOURS: u64 = 24;

/// The release channel followed by the auto-updater.
#[derive(Debug, Clone, Copy, PartialEq, Eq, Structural)]
pub enum UpdateChannel {
    Latest,
    Next,
}

impl UpdateChannel {
    pub open spec fn name(self) -> Seq<char> {
        match self {
            UpdateChannel::Latest => "latest"@,
            UpdateChannel::Next => "next"@,
        }
    }

    pub fn as_str(&self) -> (r: &'static str)
        ensures
            r@ == self.name(),
    {
        match self {
            UpdateChannel::Latest => "latest",
            UpdateChannel::Next => "next",
        }
    }
}

/// What an upgrade run should do.
#[derive(Debug, Clone, Copy, PartialEq, Eq, Structural)]
pub enum UpgradeAction {
    UpgradeAvailable,
    AlreadyLatest,
    RunningNewerVersion,
    ForceReinstall,
}

/// A release published on a channel.
#[derive(Debug, Clone, PartialEq, Eq)]
pub struct ChannelRelease {
    pub tag: String,
    pub semver: String,
}

/// What the last update check found.
#[derive(Debug, Clone, PartialEq, Eq)]
pub struct UpdateCache {
    pub last_checked_at: u64,
    pub available_tag: Option<String>,
    pub available_semver: Option<String>,
    pub channel: String,
}

impl UpdateCache {
    pub fn new(channel: UpdateChannel) -> (r: Self)
        ensures
            r.last_checked_at == 0,
            r.available_tag is None,
            r.available_semver is None,
            r.channel@ == channel.name(),
    {
        UpdateCache {
            last_checked_at: 0,
            available_tag: None,
            available_semver: None,
            channel: channel.as_str().to_string(),
        }
    }

    pub fn update_available(&self) -> (r: bool)
        ensures
            r == self.available_semver is Some,
    {
        self.available_semver.is_some()
    }

    pub fn matches_channel(&self, channel: UpdateChannel) -> (r: bool)
        ensures
            r == (self.channel@ == channel.name()),
    {
        crate::text::str_eq(self.channel.as_str(), channel.as_str())
    }
}

/// Relies on `SystemTime::now`: the seconds since the Unix epoch, or 0
/// when the clock reads earlier than the epoch.
#[verifier::external_body]
pub fn current_timestamp() -> (r: u64) {
    match std::time::SystemTime::now().duration_since(std::time::UNIX_EPOCH) {
        Ok(d) => d.as_secs(),
        Err(_) => 0,
    }
}

/// Whether a check is due at time `now` given the cached state: always
/// without a recorded check or for another channel, else once the interval
/// has passed.
pub open spec fn check_due(now: u64, channel: UpdateChannel, cache: Option<UpdateCache>) -> bool {
    match cache {
        Some(c) if c.last_checked_at > 0 => !(c.channel@ == channel.name()) || (if now
            > c.last_checked_at {
            now - c.last_checked_at
        } else {
            0
        }) > UPDATE_CHECK_INTERVAL_HOURS * 3600,
        _ => true,
    }
}

/// The cached state behind an optional reference.
pub open spec fn cached(cache: Option<&UpdateCache>) -> Option<UpdateCache> {
    match cache {
        Some(c) => Some(*c),
        None => None,
    }
}

pub fn should_check_for_updates_at(now: u64, channel: UpdateChannel, cache: Option<&UpdateCache>) -> (r:
    bool)
    ensures
        r == check_due(now, channel, cached(cache)),
{
    match cache {
        Some(cache) if cache.last_checked_at > 0 => {
            if !cache.matches_channel(channel) {
                return true;
            }
            let elapsed = now.saturating_sub(cache.last_checked_at);
            elapsed > UPDATE_CHECK_INTERVAL_HOURS * 3600
        },
        _ => true,
    }
}

/// Whether a check is due now.
pub fn should_check_for_updates(channel: UpdateChannel, cache: Option<&UpdateCache>) -> (r: bool)
    ensures
        exists|now: u64|
            r == #[trigger] check_due(now, channel, cached(cache)),
        match cache {
            Some(c) => c.last_checked_at == 0 || c.channel@ != channel.name(),
            None => true,
        } ==> r,
{
    let now = current_timestamp();
    should_check_for_updates_at(now, channel, cache)
}

/// `s` without white space at either end, as `str::trim` gives it.
pub open spec fn trimmed(s: Seq<char>) -> Seq<char>
    decreases s.len(),
{
    if s.len() > 0 && is_ws(s[0]) {
        trimmed(s.drop_first())
    } else if s.len() > 0 && is_ws(s.last()) {
        trimmed(s.drop_last())
    } else {
        s
    }
}

/// `s` without its leading `v`s.
pub open spec fn without_vs(s: Seq<char>) -> Seq<char>
    decreases s.len(),
{
    if s.len() > 0 && s[0] == 'v' {
        without_vs(s.drop_first())
    } else {
        s
    }
}

/// The part of `s` before the first `-` or `+`.
pub open spec fn before_suffix(s: Seq<char>) -> Seq<char>
    decreases s.len(),
{
    if s.len() == 0 {
        s
    } else if s[0] == '-' || s[0] == '+' {
        Seq::empty()
    } else {
        seq![s[0]] + before_suffix(s.drop_first())
    }
}

/// The version number of a release tag: `v1.2.3-next-abc` gives `1.2.3`.
pub open spec fn semver_of(tag: Seq<char>) -> Seq<char> {
    before_suffix(without_vs(trimmed(tag)))
}

fn trim_range(s: &[char]) -> (r: (usize, usize))
    ensures
        r.0 <= r.1 <= s@.len(),
        s@.subrange(r.0 as int, r.1 as int) == trimmed(s@),
{
    let mut a: usize = 0;
    let mut b: usize = s.len();
    assert(s@.subrange(0, s@.len() as int) =~= s@);
    while a < b && is_whitespace(s[a])
        invariant
            0 <= a <= b <= s@.len(),
            b == s@.len(),
            trimmed(s@.subrange(a as int, b as int)) == trimmed(s@),
        decreases b - a,
    {
        assert(s@.subrange(a as int, b as int).drop_first() =~= s@.subrange(a + 1, b as int));
        a = a + 1;
    }
    while a < b && is_whitespace(s[b - 1])
        invariant
            0 <= a <= b <= s@.len(),
            a == b || !is_ws(s@[a as int]),
            trimmed(s@.subrange(a as int, b as int)) == trimmed(s@),
        decreases b - a,
    {
        assert(s@.subrange(a as int, b as int).drop_last() =~= s@.subrange(a as int, b - 1));
        b = b - 1;
    }
    assert(s@.subrange(a as int, b as int).len() == 0 || (!is_ws(s@.subrange(a as int, b as int)[0])
        && !is_ws(s@.subrange(a as int, b as int).last())));
    (a, b)
}

/// The version number of a release tag.
pub fn semver_from_tag(tag: &str) -> (r: String)
    ensures
        r@ == semver_of(tag@),
{
    let s = chars_of(tag);
    let (a, b) = trim_range(&s);
    let t = slice_vec(&s, a, b);
    let mut i: usize = 0;
    assert(t@.subrange(0, t@.len() as int) =~= t@);
    while i < t.len() && t[i] == 'v'
        invariant
            0 <= i <= t@.len(),
            without_vs(t@.subrange(i as int, t@.len() as int)) == without_vs(t@),
        decreases t@.len() - i,
    {
        assert(t@.subrange(i as int, t@.len() as int).drop_first() =~= t@.subrange(
            i + 1,
            t@.len() as int,
        ));
        i = i + 1;
    }
    let u = slice_vec(&t, i, t.len());
    assert(without_vs(u@) == u@);
    let mut j: usize = 0;
    assert(u@.subrange(0, u@.len() as int) =~= u@);
    assert(u@.subrange(0, 0) + before_suffix(u@) =~= before_suffix(u@));
    while j < u.len() && u[j] != '-' && u[j] != '+'
        invariant
            0 <= j <= u@.len(),
            before_suffix(u@) == u@.subrange(0, j as int) + before_suffix(
                u@.subrange(j as int, u@.len() as int),
            ),
        decreases u@.len() - j,
    {
        let ghost rest = u@.subrange(j as int, u@.len() as int);
        assert(rest.drop_first() =~= u@.subrange(j + 1, u@.len() as int));
        assert(u@.subrange(0, j + 1) =~= u@.subrange(0, j as int) + seq![rest[0]]);
        j = j + 1;
    }
    let ghost rest = u@.subrange(j as int, u@.len() as int);
    assert(before_suffix(rest) =~= Seq::<char>::empty());
    let v = slice_vec(&u, 0, j);
    assert(v@ =~= before_suffix(u@));
    string_of(&v)
}

/// The pieces of `s` between dots.
pub open spec fn dot_pieces(s: Seq<char>) -> Seq<Seq<char>>
    decreases s.len(),
{
    if s.len() == 0 {
        seq![Seq::empty()]
    } else {
        let p = dot_pieces(s.drop_last());
        if s.last() == '.' {
            p.push(Seq::empty())
        } else {
            p.update(p.len() - 1, p.last().push(s.last()))
        }
    }
}

proof fn lemma_dot_pieces_len(s: Seq<char>)
    ensures
        dot_pieces(s).len() >= 1,
    decreases s.len(),
{
    if s.len() > 0 {
        lemma_dot_pieces_len(s.drop_last());
    }
}

/// The numbers among `pieces`, skipping those that do not read as `u32`.
pub open spec fn readable_numbers(pieces: Seq<Seq<char>>) -> Seq<u32>
    decreases pieces.len(),
{
    if pieces.len() == 0 {
        Seq::empty()
    } else {
        let rest = readable_numbers(pieces.drop_last());
        match parse_u32_spec(pieces.last()) {
            Some(n) => rest.push(n),
            None => rest,
        }
    }
}

/// The numeric components of a dotted version.
pub open spec fn version_parts(v: Seq<char>) -> Seq<u32> {
    readable_numbers(dot_pieces(v))
}

pub open spec fn part_at(p: Seq<u32>, i: int) -> int {
    if 0 <= i < p.len() {
        p[i] as int
    } else {
        0
    }
}

/// Whether `a` is greater than `b` from component `i` on, missing
/// components counting as zero.
pub open spec fn newer_from(a: Seq<u32>, b: Seq<u32>, i: int) -> bool
    decreases (if a.len() > b.len() {
        a.len()
    } else {
        b.len()
    }) - i,
{
    if i < 0 || i >= a.len() && i >= b.len() {
        false
    } else if part_at(a, i) > part_at(b, i) {
        true
    } else if part_at(a, i) < part_at(b, i) {
        false
    } else {
        newer_from(a, b, i + 1)
    }
}

fn parse_version(v: &str) -> (r: Vec<u32>)
    ensures
        r@ == version_parts(v@),
{
    let s = chars_of(v);
    let mut out: Vec<u32> = Vec::new();
    let mut cur: Vec<char> = Vec::new();
    let mut i: usize = 0;
    while i < s.len()
        invariant
            0 <= i <= s@.len(),
            out@ == readable_numbers(dot_pieces(s@.subrange(0, i as int)).drop_last()),
            cur@ == dot_pieces(s@.subrange(0, i as int)).last(),
        decreases s@.len() - i,
    {
        let c = s[i];
        let ghost p = dot_pieces(s@.subrange(0, i as int));
        proof {
            lemma_dot_pieces_len(s@.subrange(0, i as int));
        }
        assert(s@.subrange(0, i + 1).drop_last() =~= s@.subrange(0, i as int));
        if c == '.' {
            let n = parse_u32(&cur);
            assert(p.push(Seq::<char>::empty()).drop_last() == p);
            assert(p.drop_last().push(p.last()) =~= p);
            if let Some(x) = n {
                out.push(x);
            }
            cur = Vec::new();
            assert(cur@ =~= Seq::<char>::empty());
        } else {
            cur.push(c);
            let ghost p2 = p.update(p.len() - 1, p.last().push(c));
            assert(p2.drop_last() =~= p.drop_last());
        }
        i = i + 1;
    }
    assert(s@.subrange(0, s@.len() as int) =~= s@);
    let n = parse_u32(&cur);
    proof {
        lemma_dot_pieces_len(s@);
        assert(dot_pieces(s@).drop_last().push(dot_pieces(s@).last()) =~= dot_pieces(s@));
    }
    if let Some(x) = n {
        out.push(x);
    }
    out
}

/// Whether version `latest` is greater than version `current`, comparing
/// dotted numeric components and counting missing ones as zero.
pub fn is_newer_version(latest: &str, current: &str) -> (r: bool)
    ensures
        r == newer_from(version_parts(latest@), version_parts(current@), 0),
{
    let latest_parts = parse_version(latest);
    let current_parts = parse_version(current);
    let n = if latest_parts.len() > current_parts.len() {
        latest_parts.len()
    } else {
        current_parts.len()
    };
    let mut i: usize = 0;
    while i < n
        invariant
            0 <= i <= n,
            latest_parts@ == version_parts(latest@),
            current_parts@ == version_parts(current@),
            n == if latest_parts@.len() > current_parts@.len() {
                latest_parts@.len()
            } else {
                current_parts@.len()
            },
            newer_from(latest_parts@, current_parts@, 0) == newer_from(
                latest_parts@,
                current_parts@,
                i as int,
            ),
        decreases n - i,
    {
        let a: u32 = if i < latest_parts.len() {
            latest_parts[i]
        } else {
            0
        };
        let b: u32 = if i < current_parts.len() {
            current_parts[i]
        } else {
            0
        };
        if a > b {
            return true;
        } else if a < b {
            return false;
        }
        i = i + 1;
    }
    false
}

/// The action for a release, given `--force` and the running version.
pub fn determine_action(force: bool, release: &ChannelRelease, current_version: &str) -> (r:
    UpgradeAction)
    ensures
        r == if force {
            UpgradeAction::ForceReinstall
        } else if release.semver@ == current_version@ {
            UpgradeAction::AlreadyLatest
        } else if newer_from(version_parts(release.semver@), version_parts(current_version@), 0) {
            UpgradeAction::UpgradeAvailable
        } else {
            UpgradeAction::RunningNewerVersion
        },
{
    if force {
        return UpgradeAction::ForceReinstall;
    }
    if crate::text::str_eq(release.semver.as_str(), current_version) {
        UpgradeAction::AlreadyLatest
    } else if is_newer_version(release.semver.as_str(), current_version) {
        UpgradeAction::UpgradeAvailable
    } else {
        UpgradeAction::RunningNewerVersion
    }
}

} // verus!
