//! Alias validation, registry mutation, and connection parameter building.

use vstd::prelude::*;

use crate::config::Config;
use crate::config::Profile;

verus! {

// ---------------------------------------------------------------------------
// Small string helpers (exec counterparts of Seq<char> facts).
// ---------------------------------------------------------------------------

/// Character-wise string equality, decided against the views.
pub(crate) fn str_eq(a: &str, b: &str) -> (r: bool)
    ensures
        r == (a@ == b@),
{
    let alen = a.unicode_len();
    let blen = b.unicode_len();
    if alen != blen {
        return false;
    }
    let mut i: usize = 0;
    while i < alen
        invariant
            alen == a@.len(),
            blen == b@.len(),
            alen == blen,
            0 <= i <= alen,
            forall|j: int| 0 <= j < i ==> a@[j] == b@[j],
        decreases alen - i,
    {
        if a.get_char(i) != b.get_char(i) {
            return false;
        }
        i += 1;
    }
    proof {
        assert(a@ =~= b@);
    }
    true
}

/// Whether the character `c` occurs in `s`.
pub(crate) fn str_contains_char(s: &str, c: char) -> (r: bool)
    ensures
        r == s@.contains(c),
{
    let len = s.unicode_len();
    let mut i: usize = 0;
    while i < len
        invariant
            len == s@.len(),
            0 <= i <= len,
            forall|j: int| 0 <= j < i ==> s@[j] != c,
        decreases len - i,
    {
        if s.get_char(i) == c {
            assert(s@.contains(c));
            return true;
        }
        i += 1;
    }
    assert(!s@.contains(c)) by {
        if s@.contains(c) {
            let j = choose|j: int| 0 <= j < s@.len() && s@[j] == c;
            assert(s@[j] != c);
        }
    }
    false
}

/// Relies on `alloc::string::String::push`: appends the given character to
/// the end of the string. vstd specifies `String` but not this method.
pub assume_specification[ String::push ](s: &mut String, ch: char)
    ensures
        final(s)@ == old(s)@.push(ch),
;

/// Concatenate three string pieces; used to assemble user-facing messages.
pub(crate) fn msg3(pre: &str, mid: &str, post: &str) -> (r: String)
    ensures
        r@ == pre@ + mid@ + post@,
{
    let mut out = String::from_str(pre);
    out.append(mid);
    out.append(post);
    proof {
        assert(out@ =~= pre@ + mid@ + post@);
    }
    out
}

// ---------------------------------------------------------------------------
// Alias validation.
// ---------------------------------------------------------------------------

/// A structurally acceptable alias: non-empty, not the reserved word
/// `default`, no `:` (would collide with the `alias:path` token separator),
/// no `/` (would be ambiguous with filesystem paths), and no leading `-`
/// (would be misparsed as an option flag).
pub open spec fn valid_alias(s: Seq<char>) -> bool {
    &&& s.len() > 0
    &&& s != "default"@
    &&& !s.contains(':')
    &&& !s.contains('/')
    &&& s[0] != '-'
}

/// The message `validate_alias` reports for an invalid alias: the first rule
/// broken, in the order the rules are checked.
pub open spec fn validate_err_msg(s: Seq<char>) -> Seq<char> {
    if s.len() == 0 {
        "Alias cannot be empty"@
    } else if s == "default"@ {
        "'default' is a reserved alias name"@
    } else if s.contains(':') {
        "Alias cannot contain ':' character"@
    } else if s.contains('/') {
        "Alias cannot contain '/' character"@
    } else {
        "Alias cannot start with '-'"@
    }
}

/// Decide whether `alias` may be stored, reporting the first broken rule.
pub fn validate_alias(alias: &str) -> (r: Result<(), String>)
    ensures
        match r {
            Ok(_) => valid_alias(alias@),
            Err(e) => !valid_alias(alias@) && e@ == validate_err_msg(alias@),
        },
{
    if alias.unicode_len() == 0 {
        return Err(String::from_str("Alias cannot be empty"));
    }
    if str_eq(alias, "default") {
        return Err(String::from_str("'default' is a reserved alias name"));
    }
    if str_contains_char(alias, ':') {
        return Err(String::from_str("Alias cannot contain ':' character"));
    }
    if str_contains_char(alias, '/') {
        return Err(String::from_str("Alias cannot contain '/' character"));
    }
    if alias.get_char(0) == '-' {
        return Err(String::from_str("Alias cannot start with '-'"));
    }
    Ok(())
}

// ---------------------------------------------------------------------------
// Registry mutation.
// ---------------------------------------------------------------------------

/// Why `add_alias` refused.
pub enum AddError {
    /// The alias broke a validation rule; the message names the rule.
    InvalidAlias(String),
    /// The alias is already taken and overwriting was not requested; carries
    /// the alias and the profile it currently names, for display.
    AliasExists(String, Profile),
}

/// Store `profile` under `alias`.
///
/// The alias must pass validation. An existing entry is only replaced when
/// `overwrite` is set; otherwise the registry is left untouched and the
/// stored profile is reported back. The new entry becomes the default when
/// asked to, and also when no default was chosen yet (the first profile is a
/// sensible default).
pub fn add_alias(
    config: &mut Config,
    alias: &str,
    profile: Profile,
    make_default: bool,
    overwrite: bool,
) -> (r: Result<(), AddError>)
    requires
        old(config).wf(),
    ensures
        final(config).wf(),
        match r {
            Err(AddError::InvalidAlias(m)) => {
                &&& !valid_alias(alias@)
                &&& m@ == validate_err_msg(alias@)
                &&& *final(config) == *old(config)
            },
            Err(AddError::AliasExists(a, p)) => {
                &&& valid_alias(alias@)
                &&& old(config)@.has_alias(alias@)
                &&& !overwrite
                &&& a@ == alias@
                &&& p@ == old(config)@.profile_of(alias@)
                &&& *final(config) == *old(config)
            },
            Ok(_) => {
                let c0 = old(config)@;
                let c1 = final(config)@;
                &&& valid_alias(alias@)
                &&& (c0.has_alias(alias@) ==> overwrite)
                &&& c1.has_alias(alias@)
                &&& c1.profile_of(alias@) == profile@
                &&& (if c0.has_alias(alias@) {
                    c1.entries =~= c0.entries.update(c0.index_of(alias@), (alias@, profile@))
                } else {
                    c1.entries =~= c0.entries.push((alias@, profile@))
                })
                &&& (forall|k: Seq<char>|
                    k != alias@ ==> #[trigger] c1.has_alias(k) == c0.has_alias(k))
                &&& (forall|k: Seq<char>|
                    k != alias@ && c0.has_alias(k) ==> #[trigger] c1.profile_of(k)
                        == c0.profile_of(k))
                &&& c1.default == (if make_default || c0.default is None {
                    Some(alias@)
                } else {
                    c0.default
                })
            },
        },
{
    if let Err(m) = validate_alias(alias) {
        return Err(AddError::InvalidAlias(m));
    }
    let ghost c0 = config@;
    match config.position_of(alias) {
        Some(i) => {
            if !overwrite {
                proof {
                    c0.lemma_entry_at(i as int);
                }
                return Err(
                    AddError::AliasExists(String::from_str(alias), config.profiles[i].1.clone()),
                );
            }
            proof {
                c0.lemma_entry_at(i as int);
            }
            let entry = (String::from_str(alias), profile);
            config.profiles.set(i, entry);
        },
        None => {
            let entry = (String::from_str(alias), profile);
            config.profiles.push(entry);
        },
    }
    let set_default = match &config.default {
        Some(_) => make_default,
        None => true,
    };
    if set_default {
        config.default = Some(String::from_str(alias));
    }
    proof {
        if c0.has_alias(alias@) {
            assert(config@.entries =~= c0.entries.update(
                c0.index_of(alias@),
                (alias@, profile@),
            ));
            c0.lemma_entries_update(config@, c0.index_of(alias@), profile@);
        } else {
            assert(config@.entries =~= c0.entries.push((alias@, profile@)));
            c0.lemma_entries_push(config@, (alias@, profile@));
        }
    }
    Ok(())
}

/// Delete the entry stored under `alias`, cascading the default pointer.
///
/// When the removed alias was not the default, the pointer is untouched.
/// When it was, the pointer is cleared and then: with nothing left it stays
/// unset; with exactly one profile left that one is promoted; with two or
/// more left it stays unset rather than guessing. The returned messages
/// narrate exactly what happened.
pub fn remove_alias(config: &mut Config, alias: &str) -> (r: Result<Vec<String>, String>)
    requires
        old(config).wf(),
    ensures
        final(config).wf(),
        match r {
            Err(e) => {
                &&& *final(config) == *old(config)
                &&& !old(config)@.has_alias(alias@)
                &&& e@ == "Alias '"@ + alias@ + "' not found"@
            },
            Ok(msgs) => {
                let c0 = old(config)@;
                let c1 = final(config)@;
                &&& c0.has_alias(alias@)
                &&& c1.entries =~= c0.entries.remove(c0.index_of(alias@))
                &&& !c1.has_alias(alias@)
                &&& (forall|k: Seq<char>|
                    k != alias@ ==> #[trigger] c1.has_alias(k) == c0.has_alias(k))
                &&& (forall|k: Seq<char>|
                    k != alias@ && c0.has_alias(k) ==> #[trigger] c1.profile_of(k)
                        == c0.profile_of(k))
                &&& (if c0.default != Some(alias@) {
                    &&& c1.default == c0.default
                    &&& msgs.deep_view() =~= seq!["\u{2713} Removed alias '"@ + alias@ + "'"@]
                } else if c1.entries.len() == 0 {
                    &&& c1.default is None
                    &&& msgs.deep_view() =~= seq![
                        "\u{2713} Removed default alias '"@ + alias@ + "'"@,
                        "  No aliases remaining"@,
                    ]
                } else if c1.entries.len() == 1 {
                    &&& c1.default == Some(c1.entries[0].0)
                    &&& msgs.deep_view() =~= seq![
                        "\u{2713} Removed default alias '"@ + alias@ + "'"@,
                        "\u{2713} Set '"@ + c1.entries[0].0 + "' as new default"@,
                    ]
                } else {
                    &&& c1.default is None
                    &&& msgs.deep_view() =~= seq![
                        "\u{2713} Removed default alias '"@ + alias@ + "'"@,
                        "  No default set. Use 'qs set-default <alias>' to set one."@,
                    ]
                })
            },
        },
{
    let ghost c0 = config@;
    let i = match config.position_of(alias) {
        Some(i) => i,
        None => {
            return Err(msg3("Alias '", alias, "' not found"));
        },
    };
    proof {
        c0.lemma_entry_at(i as int);
    }
    let was_default = match &config.default {
        Some(d) => str_eq(d.as_str(), alias),
        None => false,
    };
    config.profiles.remove(i);
    let mut msgs: Vec<String> = Vec::new();
    if was_default {
        config.default = None;
        msgs.push(msg3("\u{2713} Removed default alias '", alias, "'"));
        if config.profiles.len() == 0 {
            msgs.push(String::from_str("  No aliases remaining"));
        } else if config.profiles.len() == 1 {
            let new_default = config.profiles[0].0.clone();
            msgs.push(msg3("\u{2713} Set '", new_default.as_str(), "' as new default"));
            config.default = Some(new_default);
        } else {
            msgs.push(
                String::from_str("  No default set. Use 'qs set-default <alias>' to set one."),
            );
        }
    } else {
        msgs.push(msg3("\u{2713} Removed alias '", alias, "'"));
    }
    proof {
        assert(config@.entries =~= c0.entries.remove(i as int));
        c0.lemma_entries_remove(config@, i as int);
    }
    Ok(msgs)
}

/// Point the default at `alias`, which must be stored.
pub fn set_default(config: &mut Config, alias: &str) -> (r: Result<(), String>)
    requires
        old(config).wf(),
    ensures
        final(config).wf(),
        match r {
            Err(e) => {
                &&& *final(config) == *old(config)
                &&& !old(config)@.has_alias(alias@)
                &&& e@ == "Alias '"@ + alias@ + "' not found"@
            },
            Ok(_) => {
                &&& old(config)@.has_alias(alias@)
                &&& final(config)@.entries == old(config)@.entries
                &&& final(config)@.default == Some(alias@)
            },
        },
{
    match config.position_of(alias) {
        Some(i) => {
            proof {
                config@.lemma_entry_at(i as int);
            }
            config.default = Some(String::from_str(alias));
            Ok(())
        },
        None => Err(msg3("Alias '", alias, "' not found")),
    }
}

// ---------------------------------------------------------------------------
// Connection parameter building.
// ---------------------------------------------------------------------------

/// One `  • tool` line per missing tool, in the order given.
pub open spec fn tool_bullets(tools: Seq<Seq<char>>) -> Seq<char>
    decreases tools.len(),
{
    if tools.len() == 0 {
        Seq::empty()
    } else {
        tool_bullets(tools.drop_last()) + "  \u{2022} "@ + tools.last() + "\n"@
    }
}

/// The full report for a set of missing tools.
pub open spec fn missing_tools_text(tools: Seq<Seq<char>>) -> Seq<char> {
    "Missing required tools:\n\n"@ + tool_bullets(tools)
        + "\nPlease install these tools using your system's package manager.\nCommon packages:\n  \u{2022} ssh/ssh-keygen: Usually in 'openssh' or 'openssh-client'\n  \u{2022} rsync: Usually in 'rsync'\n"@
}

/// Render the report naming each missing tool and how to get it.
pub fn missing_tools_msg(missing: Vec<&str>) -> (r: String)
    ensures
        r@ == missing_tools_text(missing.deep_view()),
{
    let mut msg = String::from_str("Missing required tools:\n\n");
    let n = missing.len();
    let mut i: usize = 0;
    while i < n
        invariant
            n == missing.len(),
            0 <= i <= n,
            msg@ == "Missing required tools:\n\n"@ + tool_bullets(
                missing.deep_view().take(i as int),
            ),
        decreases n - i,
    {
        let ghost prev = missing.deep_view().take(i as int);
        msg.append("  \u{2022} ");
        msg.append(missing[i]);
        msg.append("\n");
        proof {
            assert(missing.deep_view().take(i + 1).drop_last() =~= prev);
            assert(missing.deep_view().take(i + 1).last() == missing.deep_view()[i as int]);
            assert(msg@ =~= "Missing required tools:\n\n"@ + tool_bullets(
                missing.deep_view().take(i + 1),
            ));
        }
        i += 1;
    }
    msg.append(
        "\nPlease install these tools using your system's package manager.\nCommon packages:\n  \u{2022} ssh/ssh-keygen: Usually in 'openssh' or 'openssh-client'\n  \u{2022} rsync: Usually in 'rsync'\n",
    );
    proof {
        assert(missing.deep_view().take(n as int) =~= missing.deep_view());
        assert(msg@ =~= missing_tools_text(missing.deep_view()));
    }
    msg
}

/// The tools a working installation needs, with their presence reported by
/// the caller (presence itself is probed outside the library): `ssh`,
/// `ssh-keygen` and `rsync`, in that order.
pub open spec fn absent_tools(ssh: bool, ssh_keygen: bool, rsync: bool) -> Seq<Seq<char>> {
    (if ssh {
        Seq::<Seq<char>>::empty()
    } else {
        seq!["ssh"@]
    }) + (if ssh_keygen {
        Seq::<Seq<char>>::empty()
    } else {
        seq!["ssh-keygen"@]
    }) + (if rsync {
        Seq::<Seq<char>>::empty()
    } else {
        seq!["rsync"@]
    })
}

/// Judge the reported tool presence: fine when all three are there, else the
/// report that names exactly the absent ones.
pub fn check_dependencies(ssh: bool, ssh_keygen: bool, rsync: bool) -> (r: Result<(), String>)
    ensures
        match r {
            Ok(_) => ssh && ssh_keygen && rsync,
            Err(m) => {
                &&& !(ssh && ssh_keygen && rsync)
                &&& m@ == missing_tools_text(absent_tools(ssh, ssh_keygen, rsync))
            },
        },
{
    let mut missing: Vec<&str> = Vec::new();
    if !ssh {
        missing.push("ssh");
    }
    if !ssh_keygen {
        missing.push("ssh-keygen");
    }
    if !rsync {
        missing.push("rsync");
    }
    if missing.len() != 0 {
        proof {
            assert(missing.deep_view() =~= absent_tools(ssh, ssh_keygen, rsync));
        }
        return Err(missing_tools_msg(missing));
    }
    Ok(())
}

/// The target string handed to the transport tool: `user@host`.
pub fn ssh_target(profile: &Profile) -> (r: String)
    ensures
        r@ == profile@.user + "@"@ + profile@.host,
{
    let mut out = String::from_str(profile.user.as_str());
    out.append("@");
    out.append(profile.host.as_str());
    proof {
        assert(out@ =~= profile@.user + "@"@ + profile@.host);
    }
    out
}

/// The option words that share one transport connection across commands:
/// automatic control-master establishment, a per-target control socket under
/// `socket_dir`, and a ten-minute idle keep-alive.
pub fn multiplex_options(socket_dir: &str) -> (r: Vec<String>)
    ensures
        r.deep_view() =~= seq![
            "-o"@,
            "ControlMaster=auto"@,
            "-o"@,
            "ControlPath="@ + socket_dir@ + "/%C"@,
            "-o"@,
            "ControlPersist=10m"@,
        ],
{
    let mut out: Vec<String> = Vec::new();
    out.push(String::from_str("-o"));
    out.push(String::from_str("ControlMaster=auto"));
    out.push(String::from_str("-o"));
    out.push(msg3("ControlPath=", socket_dir, "/%C"));
    out.push(String::from_str("-o"));
    out.push(String::from_str("ControlPersist=10m"));
    out
}

// ---------------------------------------------------------------------------
// Compound transfer tokens.
// ---------------------------------------------------------------------------

/// Index of the first `:` in `s`, if any.
pub open spec fn find_colon(s: Seq<char>) -> Option<int>
    decreases s.len(),
{
    if s.len() == 0 {
        None
    } else if s[0] == ':' {
        Some(0)
    } else {
        match find_colon(s.skip(1)) {
            Some(i) => Some(i + 1),
            None => None,
        }
    }
}

/// How a transfer target token names an alias and a remote path: the part
/// before the first `:` is the alias, the part after it the path; a token
/// without `:` is a path on the default alias.
pub open spec fn split_compound(s: Seq<char>) -> (Seq<char>, Seq<char>) {
    match find_colon(s) {
        Some(i) => (s.take(i), s.skip(i + 1)),
        None => ("default"@, s),
    }
}

proof fn lemma_find_colon(s: Seq<char>)
    ensures
        match find_colon(s) {
            Some(i) => {
                &&& 0 <= i < s.len()
                &&& s[i] == ':'
                &&& forall|j: int| 0 <= j < i ==> s[j] != ':'
            },
            None => forall|j: int| 0 <= j < s.len() ==> s[j] != ':',
        },
    decreases s.len(),
{
    if s.len() > 0 && s[0] != ':' {
        lemma_find_colon(s.skip(1));
        if find_colon(s.skip(1)) is Some {
            let i1 = find_colon(s.skip(1))->0;
            assert(s[i1 + 1] == s.skip(1)[i1]);
            assert forall|j: int| 0 <= j < i1 + 1 implies s[j] != ':' by {
                if j > 0 {
                    assert(s.skip(1)[j - 1] == s[j]);
                }
            }
        } else {
            assert forall|j: int| 0 <= j < s.len() implies s[j] != ':' by {
                if j > 0 {
                    assert(s.skip(1)[j - 1] == s[j]);
                }
            }
        }
    }
}

/// Split a transfer token into its alias part and its path part, as
/// [`split_compound`] prescribes.
pub fn compound_token_split(token: &str) -> (r: (String, String))
    ensures
        (r.0@, r.1@) == split_compound(token@),
{
    let len = token.unicode_len();
    let mut i: usize = 0;
    while i < len
        invariant
            len == token@.len(),
            0 <= i <= len,
            forall|j: int| 0 <= j < i ==> token@[j] != ':',
        decreases len - i,
    {
        if token.get_char(i) == ':' {
            proof {
                lemma_find_colon(token@);
                if find_colon(token@) is None {
                    assert(false);
                }
                let fi = find_colon(token@)->0;
                if fi < i {
                    assert(token@[fi] != ':');
                }
                if i < fi {
                    assert(token@[i as int] != ':');
                }
                assert(find_colon(token@) == Some(i as int));
            }
            let alias_part = token.substring_char(0, i);
            let path_part = token.substring_char(i + 1, len);
            proof {
                assert(alias_part@ =~= token@.take(i as int));
                assert(path_part@ =~= token@.skip(i + 1));
            }
            return (String::from_str(alias_part), String::from_str(path_part));
        }
        i += 1;
    }
    proof {
        lemma_find_colon(token@);
        if find_colon(token@) is Some {
            let fi = find_colon(token@)->0;
            assert(token@[fi] != ':');
        }
    }
    (String::from_str("default"), String::from_str(token))
}

} // verus!
