//! The guards of a config save. A profile's lifecycle hooks (`post_up`, `post_down`) run
//! commands as root, so they are set by editing the file on the host and never through the
//! panel: a structured save takes them from disk, a raw save that changes them is refused,
//! and text about to be written must read back with exactly the hooks intended. A username
//! names one user, so a repeated one is refused. The stored passwords, which the panel
//! never sees, are kept from disk through a structured save; and a save that moves the
//! panel's own socket needs a full restart.

use vstd::prelude::*;

verus! {

/// A profile's name and lifecycle hooks as the contracts see them: `(name, post_up,
/// post_down)`.
pub type HooksView = (Seq<char>, Seq<char>, Seq<char>);

/// A profile's name and its lifecycle hooks.
pub struct ProfileHooks {
    pub name: String,
    pub post_up: String,
    pub post_down: String,
}

impl ProfileHooks {
    pub open spec fn view_hooks(&self) -> HooksView {
        (self.name@, self.post_up@, self.post_down@)
    }
}

/// The views of a list of profiles.
pub open spec fn hooks_seq(v: Seq<ProfileHooks>) -> Seq<HooksView> {
    v.map_values(|p: ProfileHooks| p.view_hooks())
}

/// The profiles of the config on disk, when it could be read and parsed.
pub open spec fn disk_view(o: Option<Vec<ProfileHooks>>) -> Option<Seq<HooksView>> {
    match o {
        Some(v) => Some(hooks_seq(v@)),
        None => None,
    }
}

/// The hooks of the first profile of `d` named `name`; none when there is no such profile.
pub open spec fn hooks_named(d: Seq<HooksView>, name: Seq<char>) -> (Seq<char>, Seq<char>)
    decreases d.len(),
{
    if d.len() == 0 {
        (Seq::empty(), Seq::empty())
    } else if d[0].0 == name {
        (d[0].1, d[0].2)
    } else {
        hooks_named(d.subrange(1, d.len() as int), name)
    }
}

/// The hooks that a profile named `name` has on disk: those of the first profile of that
/// name, and none when there is no such profile or the file could not be read.
pub open spec fn hooks_on_disk(on_disk: Option<Seq<HooksView>>, name: Seq<char>) -> (
    Seq<char>,
    Seq<char>,
) {
    match on_disk {
        Some(d) => hooks_named(d, name),
        None => (Seq::empty(), Seq::empty()),
    }
}

/// A submitted profile carries the hooks its name has on disk.
pub open spec fn keeps_disk_hooks(p: HooksView, on_disk: Option<Seq<HooksView>>) -> bool {
    (p.1, p.2) == hooks_on_disk(on_disk, p.0)
}

/// The profiles of a structured save with their hooks taken from disk.
pub open spec fn restored_spec(profiles: Seq<HooksView>, on_disk: Option<Seq<HooksView>>) -> Seq<
    HooksView,
> {
    profiles.map_values(
        |p: HooksView| (p.0, hooks_on_disk(on_disk, p.0).0, hooks_on_disk(on_disk, p.0).1),
    )
}

/// `j` is the last profile of `d` named `name`: the one a map built from `d` keeps.
pub open spec fn is_last_named(d: Seq<HooksView>, name: Seq<char>, j: int) -> bool {
    &&& 0 <= j < d.len()
    &&& d[j].0 == name
    &&& forall|k: int| j < k < d.len() ==> #[trigger] d[k].0 != name
}

/// A re-parsed profile reads back as intended: a profile of that name was intended, and the
/// last one has exactly its hooks.
pub open spec fn reads_back_as_intended(p: HooksView, intended: Seq<HooksView>) -> bool {
    exists|j: int| is_last_named(intended, p.0, j) && intended[j].1 == p.1 && intended[j].2 == p.2
}

/// No name occurs twice.
pub open spec fn names_distinct(d: Seq<HooksView>) -> bool {
    forall|a: int, b: int|
        #![trigger d[a], d[b]]
        0 <= a < d.len() && 0 <= b < d.len() && a != b ==> d[a].0 != d[b].0
}

/// The hooks on disk for the profile named `name`, as new strings.
fn disk_hooks_for(on_disk: &Option<Vec<ProfileHooks>>, name: &String) -> (r: (String, String))
    ensures
        (r.0@, r.1@) == hooks_on_disk(disk_view(*on_disk), name@),
{
    match on_disk {
        Some(d) => {
            let ghost s = hooks_seq(d@);
            let mut i: usize = 0;
            assert(s.subrange(0, s.len() as int) =~= s);
            assert(disk_view(*on_disk) == Some(s));
            while i < d.len()
                invariant
                    s == hooks_seq(d@),
                    disk_view(*on_disk) == Some(s),
                    i <= d@.len(),
                    hooks_named(s, name@) == hooks_named(s.subrange(i as int, s.len() as int), name@),
                decreases d.len() - i,
            {
                let ghost rest = s.subrange(i as int, s.len() as int);
                assert(rest.len() > 0);
                assert(rest[0] == d@[i as int].view_hooks());
                if d[i].name == *name {
                    let up = d[i].post_up.clone();
                    let down = d[i].post_down.clone();
                    assert(hooks_named(rest, name@) == (rest[0].1, rest[0].2));
                    return (up, down);
                }
                assert(rest.subrange(1, rest.len() as int) =~= s.subrange(i + 1, s.len() as int));
                i = i + 1;
            }
            (String::new(), String::new())
        },
        None => (String::new(), String::new()),
    }
}

/// The first profile of a raw save whose hooks differ from what its name has on disk
/// (`on_disk` is `None` when the current file could not be read); such a save is refused.
pub fn first_raw_hook_change(submitted: &[ProfileHooks], on_disk: &Option<Vec<ProfileHooks>>) -> (r:
    Option<usize>)
    ensures
        match r {
            Some(i) => {
                &&& i < submitted@.len()
                &&& !keeps_disk_hooks(submitted@[i as int].view_hooks(), disk_view(*on_disk))
                &&& forall|k: int|
                    0 <= k < i ==> keeps_disk_hooks(
                        #[trigger] submitted@[k].view_hooks(),
                        disk_view(*on_disk),
                    )
            },
            None => forall|k: int|
                0 <= k < submitted@.len() ==> keeps_disk_hooks(
                    #[trigger] submitted@[k].view_hooks(),
                    disk_view(*on_disk),
                ),
        },
{
    let mut i: usize = 0;
    while i < submitted.len()
        invariant
            i <= submitted@.len(),
            forall|k: int|
                0 <= k < i ==> keeps_disk_hooks(
                    #[trigger] submitted@[k].view_hooks(),
                    disk_view(*on_disk),
                ),
        decreases submitted.len() - i,
    {
        let p = &submitted[i];
        let (up, down) = disk_hooks_for(on_disk, &p.name);
        if !(p.post_up == up && p.post_down == down) {
            return Some(i);
        }
        i = i + 1;
    }
    None
}

/// Give each profile of a structured save the hooks its name has on disk, discarding what
/// the request sent; with the file unreadable (`None`) every hook is cleared.
pub fn restore_hooks(profiles: &mut Vec<ProfileHooks>, on_disk: &Option<Vec<ProfileHooks>>)
    ensures
        hooks_seq(final(profiles)@) == restored_spec(hooks_seq(old(profiles)@), disk_view(*on_disk)),
{
    let ghost before = hooks_seq(profiles@);
    let mut out: Vec<ProfileHooks> = Vec::new();
    let mut i: usize = 0;
    while i < profiles.len()
        invariant
            before == hooks_seq(profiles@),
            i <= profiles@.len(),
            hooks_seq(out@) == restored_spec(before, disk_view(*on_disk)).take(i as int),
        decreases profiles.len() - i,
    {
        let name = profiles[i].name.clone();
        let (up, down) = disk_hooks_for(on_disk, &name);
        let ghost prev = out@;
        let ghost added: HooksView = (name@, up@, down@);
        out.push(ProfileHooks { name, post_up: up, post_down: down });
        proof {
            assert(before[i as int] == profiles@[i as int].view_hooks());
            assert(hooks_seq(out@) =~= hooks_seq(prev).push(added));
            assert(restored_spec(before, disk_view(*on_disk))[i as int] == added);
            assert(hooks_seq(out@) =~= restored_spec(before, disk_view(*on_disk)).take(i + 1));
        }
        i = i + 1;
    }
    assert(restored_spec(before, disk_view(*on_disk)).take(profiles@.len() as int) =~= restored_spec(
        before,
        disk_view(*on_disk),
    ));
    *profiles = out;
}

/// The first re-parsed profile that does not read back as intended: its name was not
/// intended, or its hooks are not those intended for that name. Text that fails this
/// carries a hook smuggled in through a name or key, and is not written.
pub fn first_unintended_hooks(intended: &[ProfileHooks], reparsed: &[ProfileHooks]) -> (r: Option<
    usize,
>)
    ensures
        match r {
            Some(i) => {
                &&& i < reparsed@.len()
                &&& !reads_back_as_intended(
                    reparsed@[i as int].view_hooks(),
                    hooks_seq(intended@),
                )
                &&& forall|k: int|
                    0 <= k < i ==> reads_back_as_intended(
                        #[trigger] reparsed@[k].view_hooks(),
                        hooks_seq(intended@),
                    )
            },
            None => forall|k: int|
                0 <= k < reparsed@.len() ==> reads_back_as_intended(
                    #[trigger] reparsed@[k].view_hooks(),
                    hooks_seq(intended@),
                ),
        },
{
    let ghost s = hooks_seq(intended@);
    let mut i: usize = 0;
    while i < reparsed.len()
        invariant
            s == hooks_seq(intended@),
            i <= reparsed@.len(),
            forall|k: int|
                0 <= k < i ==> reads_back_as_intended(#[trigger] reparsed@[k].view_hooks(), s),
        decreases reparsed.len() - i,
    {
        let p = &reparsed[i];
        // Find the last intended profile of this name.
        let mut found: Option<usize> = None;
        let mut j: usize = 0;
        while j < intended.len()
            invariant
                s == hooks_seq(intended@),
                j <= intended@.len(),
                match found {
                    Some(f) => f < j && s[f as int].0 == p.name@ && forall|k: int|
                        f < k < j ==> #[trigger] s[k].0 != p.name@,
                    None => forall|k: int| 0 <= k < j ==> #[trigger] s[k].0 != p.name@,
                },
            decreases intended.len() - j,
        {
            assert(s[j as int] == intended@[j as int].view_hooks());
            if intended[j].name == p.name {
                found = Some(j);
            }
            j = j + 1;
        }
        let ok = match found {
            Some(f) => {
                assert(is_last_named(s, p.name@, f as int));
                assert(s[f as int] == intended@[f as int].view_hooks());
                let ok = intended[f].post_up == p.post_up && intended[f].post_down == p.post_down;
                proof {
                    if !ok {
                        assert forall|c: int| is_last_named(s, p.name@, c) implies !(s[c].1
                            == p.post_up@ && s[c].2 == p.post_down@) by {
                            if c < f {
                                assert(s[f as int].0 != p.name@);
                            } else if c > f {
                                assert(s[c].0 != p.name@);
                            }
                        }
                    }
                }
                ok
            },
            None => false,
        };
        if !ok {
            return Some(i);
        }
        i = i + 1;
    }
    None
}

/// The first username that repeats an earlier one; such a config is refused, since only the
/// first user of a name would ever be used.
pub fn first_repeated_name(names: &[String]) -> (r: Option<usize>)
    ensures
        match r {
            Some(i) => {
                &&& i < names@.len()
                &&& exists|j: int| #![trigger names@[j]] 0 <= j < i && names@[j]@ == names@[i as int]@
                &&& forall|a: int, b: int|
                    0 <= a < b < i ==> #[trigger] names@[a]@ != #[trigger] names@[b]@
            },
            None => forall|a: int, b: int|
                0 <= a < b < names@.len() ==> #[trigger] names@[a]@ != #[trigger] names@[b]@,
        },
{
    let mut i: usize = 0;
    while i < names.len()
        invariant
            i <= names@.len(),
            forall|a: int, b: int| 0 <= a < b < i ==> #[trigger] names@[a]@ != #[trigger] names@[b]@,
        decreases names.len() - i,
    {
        let mut j: usize = 0;
        while j < i
            invariant
                i < names@.len(),
                j <= i,
                forall|a: int, b: int| 0 <= a < b < i ==> #[trigger] names@[a]@ != #[trigger] names@[b]@,
                forall|a: int| 0 <= a < j ==> #[trigger] names@[a]@ != names@[i as int]@,
            decreases i - j,
        {
            if names[j] == names[i] {
                assert(names@[j as int]@ == names@[i as int]@);
                return Some(i);
            }
            j = j + 1;
        }
        i = i + 1;
    }
    None
}

/// After a structured save has taken its hooks from disk, the raw guard finds no hook
/// changed: the panel can never set a hook by either path.
pub proof fn restored_hooks_pass_the_raw_guard(
    profiles: Seq<HooksView>,
    on_disk: Option<Seq<HooksView>>,
)
    ensures
        forall|k: int|
            0 <= k < profiles.len() ==> keeps_disk_hooks(
                #[trigger] restored_spec(profiles, on_disk)[k],
                on_disk,
            ),
{
}

/// Text that reads back as exactly the profiles intended passes the read-back guard,
/// provided no two intended profiles share a name.
pub proof fn faithful_read_back_passes(intended: Seq<HooksView>)
    requires
        names_distinct(intended),
    ensures
        forall|k: int|
            0 <= k < intended.len() ==> reads_back_as_intended(#[trigger] intended[k], intended),
{
    assert forall|k: int| 0 <= k < intended.len() implies reads_back_as_intended(
        #[trigger] intended[k],
        intended,
    ) by {
        assert forall|m: int| k < m < intended.len() implies #[trigger] intended[m].0
            != intended[k].0 by {
            assert(intended[m].0 != intended[k].0);
        }
        assert(is_last_named(intended, intended[k].0, k));
    }
}


/// A user's name and stored password secrets as the contracts see them: `(username,
/// password_hash, password_enc)`.
pub type UserView = (Seq<char>, Seq<char>, Seq<char>);

/// An inline user's name and stored password secrets.
pub struct UserSecrets {
    pub username: String,
    pub password_hash: String,
    pub password_enc: String,
}

impl UserSecrets {
    pub open spec fn view_user(&self) -> UserView {
        (self.username@, self.password_hash@, self.password_enc@)
    }
}

/// The views of a list of users.
pub open spec fn users_seq(v: Seq<UserSecrets>) -> Seq<UserView> {
    v.map_values(|u: UserSecrets| u.view_user())
}

/// The secrets the current config file holds: its inline users and the admin's hash.
pub struct StoredSecrets {
    pub users: Vec<UserSecrets>,
    pub admin_hash: String,
}

/// The `(password_hash, password_enc)` of the first user of `d` named `name`.
pub open spec fn user_on_disk(d: Seq<UserView>, name: Seq<char>) -> Option<(Seq<char>, Seq<char>)>
    decreases d.len(),
{
    if d.len() == 0 {
        None
    } else if d[0].0 == name {
        Some((d[0].1, d[0].2))
    } else {
        user_on_disk(d.subrange(1, d.len() as int), name)
    }
}

/// A submitted user after the save: one sent without a hash gets the hash and encrypted
/// password its name has on disk, if it has any; every other user is kept as sent.
pub open spec fn restored_user(u: UserView, d: Seq<UserView>) -> UserView {
    if u.1.len() == 0 {
        match user_on_disk(d, u.0) {
            Some((h, e)) => (u.0, h, e),
            None => u,
        }
    } else {
        u
    }
}

/// The users of a structured save with their secrets restored from disk.
pub open spec fn restored_users(users: Seq<UserView>, d: Seq<UserView>) -> Seq<UserView> {
    users.map_values(|u: UserView| restored_user(u, d))
}

/// A structured save never touches the secrets of a user sent with a hash: such a user comes
/// out exactly as sent, whatever its encrypted password. Only a user sent without a hash
/// takes its secrets from disk, and then both from the first user of its name there.
pub proof fn sent_hashes_are_kept(users: Seq<UserView>, d: Seq<UserView>)
    ensures
        restored_users(users, d).len() == users.len(),
        forall|i: int|
            0 <= i < users.len() && users[i].1.len() > 0 ==> #[trigger] restored_users(users, d)[i]
                == users[i],
        forall|i: int|
            0 <= i < users.len() && users[i].1.len() == 0 ==> #[trigger] restored_users(users, d)[i]
                == match user_on_disk(d, users[i].0) {
                Some((h, e)) => (users[i].0, h, e),
                None => users[i],
            },
        forall|i: int|
            0 <= i < users.len() ==> (#[trigger] restored_users(users, d)[i]).0 == users[i].0,
{
}

fn user_secrets_for(d: &Vec<UserSecrets>, name: &String) -> (r: Option<(String, String)>)
    ensures
        match r {
            Some((h, e)) => user_on_disk(users_seq(d@), name@) == Some((h@, e@)),
            None => user_on_disk(users_seq(d@), name@) is None,
        },
{
    let ghost s = users_seq(d@);
    let mut i: usize = 0;
    assert(s.subrange(0, s.len() as int) =~= s);
    while i < d.len()
        invariant
            s == users_seq(d@),
            i <= d@.len(),
            user_on_disk(s, name@) == user_on_disk(s.subrange(i as int, s.len() as int), name@),
        decreases d.len() - i,
    {
        let ghost rest = s.subrange(i as int, s.len() as int);
        assert(rest.len() > 0);
        assert(rest[0] == d@[i as int].view_user());
        if d[i].username == *name {
            return Some((d[i].password_hash.clone(), d[i].password_enc.clone()));
        }
        assert(rest.subrange(1, rest.len() as int) =~= s.subrange(i + 1, s.len() as int));
        i = i + 1;
    }
    None
}

/// Keep the stored passwords through a structured save. With the current file read
/// (`Some`), every user sent without a hash takes its hash and encrypted password from the
/// first user of its name on disk, and an empty admin hash takes the one on disk; `true`.
/// With the file unreadable (`None`) nothing can be kept: `false`, so the save is refused,
/// when there are inline users to lock out, `true` otherwise; nothing is changed.
pub fn keep_secrets_from_disk(
    users: &mut Vec<UserSecrets>,
    admin_hash: &mut String,
    on_disk: &Option<StoredSecrets>,
) -> (saved: bool)
    ensures
        match on_disk {
            Some(d) => {
                &&& saved
                &&& users_seq(final(users)@) == restored_users(
                    users_seq(old(users)@),
                    users_seq(d.users@),
                )
                &&& final(admin_hash)@ == (if old(admin_hash)@.len() == 0 {
                    d.admin_hash@
                } else {
                    old(admin_hash)@
                })
            },
            None => {
                &&& saved == (old(users)@.len() == 0)
                &&& final(users)@ == old(users)@
                &&& final(admin_hash)@ == old(admin_hash)@
            },
        },
{
    match on_disk {
        None => users.len() == 0,
        Some(d) => {
            let ghost before = users_seq(users@);
            let ghost disk = users_seq(d.users@);
            let empty = String::new();
            let mut out: Vec<UserSecrets> = Vec::new();
            let mut i: usize = 0;
            while i < users.len()
                invariant
                    before == users_seq(users@),
                    disk == users_seq(d.users@),
                    empty@ == Seq::<char>::empty(),
                    i <= users@.len(),
                    users_seq(out@) == restored_users(before, disk).take(i as int),
                decreases users.len() - i,
            {
                let u = &users[i];
                assert(before[i as int] == u.view_user());
                let name = u.username.clone();
                proof {
                    if u.password_hash@.len() == 0 {
                        assert(u.password_hash@ =~= empty@);
                    }
                }
                let (hash, enc) = if u.password_hash == empty {
                    match user_secrets_for(&d.users, &name) {
                        Some((h, e)) => (h, e),
                        None => (u.password_hash.clone(), u.password_enc.clone()),
                    }
                } else {
                    (u.password_hash.clone(), u.password_enc.clone())
                };
                let ghost prev = out@;
                let ghost added: UserView = (name@, hash@, enc@);
                out.push(UserSecrets { username: name, password_hash: hash, password_enc: enc });
                proof {
                    assert(users_seq(out@) =~= users_seq(prev).push(added));
                    assert(restored_users(before, disk)[i as int] == added);
                    assert(users_seq(out@) =~= restored_users(before, disk).take(i + 1));
                }
                i = i + 1;
            }
            assert(restored_users(before, disk).take(users@.len() as int) =~= restored_users(
                before,
                disk,
            ));
            *users = out;
            proof {
                if admin_hash@.len() == 0 {
                    assert(admin_hash@ =~= empty@);
                }
            }
            if *admin_hash == empty {
                *admin_hash = d.admin_hash.clone();
            }
            true
        },
    }
}

/// The settings the panel's own socket and user store were bound with at startup.
pub struct PanelSettings {
    pub bind: String,
    pub port: u16,
    pub enabled: bool,
    pub tls: bool,
    pub tls_cert: String,
    pub tls_key: String,
    pub base_path: String,
    pub users_file: String,
}

/// Whether a saved config changes what the panel was bound with at startup (its address,
/// port, switch, TLS, base path or user file): those are read once, so only a full restart
/// applies them.
pub fn panel_needs_full_restart(new: &PanelSettings, boot: &PanelSettings) -> (restart: bool)
    ensures
        restart == !(new.bind@ == boot.bind@ && new.port == boot.port && new.enabled
            == boot.enabled && new.tls == boot.tls && new.tls_cert@ == boot.tls_cert@
            && new.tls_key@ == boot.tls_key@ && new.base_path@ == boot.base_path@
            && new.users_file@ == boot.users_file@),
{
    new.bind != boot.bind || new.port != boot.port || new.enabled != boot.enabled || new.tls
        != boot.tls || new.tls_cert != boot.tls_cert || new.tls_key != boot.tls_key
        || new.base_path != boot.base_path || new.users_file != boot.users_file
}

} // verus!
