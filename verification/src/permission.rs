//! Permission names, their default kinds, and the checks that guard requests.

use crate::state::InnerState;
use vstd::prelude::*;
use vstd::string::{StrSliceExecFns, StringExecFns};

verus! {

/// Querying whether the storage is paused.
pub const ACTION_PAUSE_QUERY: &'static str = "PauseQuery";

/// Pausing or resuming the storage.
pub const ACTION_PAUSE_REPLACE: &'static str = "PauseReplace";

/// Querying one's own permissions.
pub const ACTION_PERMISSION_QUERY: &'static str = "PermissionQuery";

/// Querying the permissions of others.
pub const ACTION_PERMISSION_FIND: &'static str = "PermissionFind";

/// Granting or revoking permissions.
pub const ACTION_PERMISSION_UPDATE: &'static str = "PermissionUpdate";

/// Reading the operation records.
pub const ACTION_RECORD_FIND: &'static str = "RecordFind";

/// Deleting operation records.
pub const ACTION_RECORD_DELETE: &'static str = "RecordDelete";

/// Reading the schedule.
pub const ACTION_SCHEDULE_FIND: &'static str = "ScheduleFind";

/// Changing the schedule.
pub const ACTION_SCHEDULE_REPLACE: &'static str = "ScheduleReplace";

/// Running the scheduled task by hand.
pub const ACTION_SCHEDULE_TRIGGER: &'static str = "ScheduleTrigger";

/// Listing and downloading files.
pub const ACTION_BUSINESS_QUERY: &'static str = "BusinessQuery";

/// Uploading files.
pub const ACTION_BUSINESS_UPLOAD: &'static str = "BusinessUpload";

/// Deleting files.
pub const ACTION_BUSINESS_DELETE: &'static str = "BusinessDelete";

/// A permission: a `Permitted` one is held only by those it is granted to, a
/// `Forbidden` one by everyone it is not assigned to.
#[derive(Debug)]
pub enum Permission {
    Permitted(String),
    Forbidden(String),
}

impl View for Permission {
    /// Whether the permission is of the permitted kind, and its name.
    type V = (bool, Seq<char>);

    open spec fn view(&self) -> (bool, Seq<char>) {
        match self {
            Permission::Permitted(name) => (true, name@),
            Permission::Forbidden(name) => (false, name@),
        }
    }
}

impl Clone for Permission {
    fn clone(&self) -> (p: Self)
        ensures
            p@ == self@,
    {
        match self {
            Permission::Permitted(name) => Permission::Permitted(name.clone()),
            Permission::Forbidden(name) => Permission::Forbidden(name.clone()),
        }
    }
}

impl Permission {
    /// A permission held only by those it is granted to.
    pub fn by_permit(name: &str) -> (p: Self)
        ensures
            p@ == (true, name@),
    {
        Permission::Permitted(String::from_str(name))
    }

    /// A permission held by everyone it is not assigned to.
    pub fn by_forbid(name: &str) -> (p: Self)
        ensures
            p@ == (false, name@),
    {
        Permission::Forbidden(String::from_str(name))
    }

    pub fn is_permit(&self) -> (r: bool)
        ensures
            r == self@.0,
    {
        match self {
            Permission::Permitted(_) => true,
            Permission::Forbidden(_) => false,
        }
    }

    /// Whether two permissions are of the same kind and name.
    pub fn same_as(&self, other: &Permission) -> (r: bool)
        ensures
            r == (self@ == other@),
    {
        match (self, other) {
            (Permission::Permitted(a), Permission::Permitted(b)) => *a == *b,
            (Permission::Forbidden(a), Permission::Forbidden(b)) => *a == *b,
            _ => false,
        }
    }
}

/// A name that is not one of the storage's permissions.
#[derive(Debug)]
pub struct ParsePermissionError<'a>(pub &'a str);

/// Whether two texts are equal, character by character.
pub fn same_text(a: &str, b: &str) -> (r: bool)
    ensures
        r == (a@ == b@),
{
    let n = a.unicode_len();
    if n != b.unicode_len() {
        return false;
    }
    let mut i: usize = 0;
    while i < n
        invariant
            n == a@.len(),
            n == b@.len(),
            i <= n,
            forall|j: int| 0 <= j < i ==> a@[j] == b@[j],
        decreases n - i,
    {
        if a.get_char(i) != b.get_char(i) {
            return false;
        }
        i = i + 1;
    }
    assert(a@ =~= b@);
    true
}

/// The kind that the storage gives a permission name (permitted or not), if
/// the name is one of its permissions.
pub open spec fn permission_kind(name: Seq<char>) -> Option<bool> {
    if name == ACTION_PAUSE_QUERY@ {
        Some(false)
    } else if name == ACTION_PAUSE_REPLACE@ {
        Some(true)
    } else if name == ACTION_PERMISSION_QUERY@ {
        Some(false)
    } else if name == ACTION_PERMISSION_FIND@ {
        Some(true)
    } else if name == ACTION_PERMISSION_UPDATE@ {
        Some(true)
    } else if name == ACTION_RECORD_FIND@ {
        Some(true)
    } else if name == ACTION_RECORD_DELETE@ {
        Some(true)
    } else if name == ACTION_SCHEDULE_FIND@ {
        Some(true)
    } else if name == ACTION_SCHEDULE_REPLACE@ {
        Some(true)
    } else if name == ACTION_SCHEDULE_TRIGGER@ {
        Some(true)
    } else if name == ACTION_BUSINESS_QUERY@ {
        Some(false)
    } else if name == ACTION_BUSINESS_UPLOAD@ {
        Some(true)
    } else if name == ACTION_BUSINESS_DELETE@ {
        Some(true)
    } else {
        None
    }
}

/// Every permission name of the storage, in a fixed order.
pub open spec fn action_names() -> Seq<Seq<char>> {
    seq![
        ACTION_PAUSE_QUERY@,
        ACTION_PAUSE_REPLACE@,
        ACTION_PERMISSION_QUERY@,
        ACTION_PERMISSION_FIND@,
        ACTION_PERMISSION_UPDATE@,
        ACTION_RECORD_FIND@,
        ACTION_RECORD_DELETE@,
        ACTION_SCHEDULE_FIND@,
        ACTION_SCHEDULE_REPLACE@,
        ACTION_SCHEDULE_TRIGGER@,
        ACTION_BUSINESS_QUERY@,
        ACTION_BUSINESS_UPLOAD@,
        ACTION_BUSINESS_DELETE@,
    ]
}

/// Every permission name of the storage, in a fixed order.
pub fn actions() -> (v: Vec<&'static str>)
    ensures
        v@.len() == action_names().len(),
        forall|i: int| 0 <= i < v@.len() ==> #[trigger] v@[i]@ == action_names()[i],
{
    let v = vec![
        ACTION_PAUSE_QUERY,
        ACTION_PAUSE_REPLACE,
        ACTION_PERMISSION_QUERY,
        ACTION_PERMISSION_FIND,
        ACTION_PERMISSION_UPDATE,
        ACTION_RECORD_FIND,
        ACTION_RECORD_DELETE,
        ACTION_SCHEDULE_FIND,
        ACTION_SCHEDULE_REPLACE,
        ACTION_SCHEDULE_TRIGGER,
        ACTION_BUSINESS_QUERY,
        ACTION_BUSINESS_UPLOAD,
        ACTION_BUSINESS_DELETE,
    ];
    v
}

impl InnerState {
    /// The permission that a name denotes, with the kind the storage gives it.
    pub fn parse_permission<'a>(&self, name: &'a str) -> (r: Result<Permission, ParsePermissionError<'a>>)
        ensures
            match (r, permission_kind(name@)) {
                (Ok(p), Some(k)) => p@ == (k, name@),
                (Err(e), None) => e.0 == name,
                _ => false,
            },
    {
        if same_text(name, ACTION_PAUSE_QUERY) {
            Ok(Permission::by_forbid(name))
        } else if same_text(name, ACTION_PAUSE_REPLACE) {
            Ok(Permission::by_permit(name))
        } else if same_text(name, ACTION_PERMISSION_QUERY) {
            Ok(Permission::by_forbid(name))
        } else if same_text(name, ACTION_PERMISSION_FIND) {
            Ok(Permission::by_permit(name))
        } else if same_text(name, ACTION_PERMISSION_UPDATE) {
            Ok(Permission::by_permit(name))
        } else if same_text(name, ACTION_RECORD_FIND) {
            Ok(Permission::by_permit(name))
        } else if same_text(name, ACTION_RECORD_DELETE) {
            Ok(Permission::by_permit(name))
        } else if same_text(name, ACTION_SCHEDULE_FIND) {
            Ok(Permission::by_permit(name))
        } else if same_text(name, ACTION_SCHEDULE_REPLACE) {
            Ok(Permission::by_permit(name))
        } else if same_text(name, ACTION_SCHEDULE_TRIGGER) {
            Ok(Permission::by_permit(name))
        } else if same_text(name, ACTION_BUSINESS_QUERY) {
            Ok(Permission::by_forbid(name))
        } else if same_text(name, ACTION_BUSINESS_UPLOAD) {
            Ok(Permission::by_permit(name))
        } else if same_text(name, ACTION_BUSINESS_DELETE) {
            Ok(Permission::by_permit(name))
        } else {
            Err(ParsePermissionError(name))
        }
    }
}

} // verus!

verus! {

/// Why a caller is refused a permission it lacks.
pub open spec fn permission_required_message(name: Seq<char>) -> Seq<char> {
    "Permission '"@ + name + "' is required"@
}

/// Why a request that needs the storage running is refused while it is paused.
pub open spec fn paused_message(reason: Seq<char>) -> Seq<char> {
    "Canister is paused: "@ + reason
}

/// The answer to a request that needs permission `name`: refused when the
/// caller does not hold it, or when the request needs the storage running
/// and it is paused; accepted otherwise.
pub open spec fn permission_check(
    name: Seq<char>,
    running: bool,
    granted: bool,
    paused: Option<Seq<char>>,
) -> Result<(), Seq<char>> {
    if !granted {
        Err(permission_required_message(name))
    } else if running && paused is Some {
        Err(paused_message(paused->0))
    } else {
        Ok(())
    }
}

/// The text of a pause reason, if any.
pub open spec fn reason_view(paused: Option<&str>) -> Option<Seq<char>> {
    match paused {
        Some(s) => Some(s@),
        None => None,
    }
}

/// Decides a request that needs permission `permission`, given whether the
/// caller holds it and the reason the storage is paused, if it is.
pub fn check_permission(permission: &str, running: bool, granted: bool, paused: Option<&str>) -> (r:
    Result<(), String>)
    ensures
        match (r, permission_check(permission@, running, granted, reason_view(paused))) {
            (Ok(()), Ok(())) => true,
            (Err(m), Err(n)) => m@ == n,
            _ => false,
        },
{
    if !granted {
        let mut message = String::from_str("Permission '");
        message.append(permission);
        message.append("' is required");
        return Err(message);
    }
    if running {
        if let Some(reason) = paused {
            let mut message = String::from_str("Canister is paused: ");
            message.append(reason);
            return Err(message);
        }
    }
    Ok(())
}

/// Guards listing and downloading files; this permission does not need the
/// storage running.
pub fn has_business_query(granted: bool) -> (r: Result<(), String>)
    ensures
        match (r, permission_check(ACTION_BUSINESS_QUERY@, false, granted, None)) {
            (Ok(()), Ok(())) => true,
            (Err(m), Err(n)) => m@ == n,
            _ => false,
        },
{
    check_permission(ACTION_BUSINESS_QUERY, false, granted, None)
}

/// Guards uploading files; refused while the storage is paused.
pub fn has_business_upload(granted: bool, paused: Option<&str>) -> (r: Result<(), String>)
    ensures
        match (r, permission_check(ACTION_BUSINESS_UPLOAD@, true, granted, reason_view(paused))) {
            (Ok(()), Ok(())) => true,
            (Err(m), Err(n)) => m@ == n,
            _ => false,
        },
{
    check_permission(ACTION_BUSINESS_UPLOAD, true, granted, paused)
}

/// Guards deleting files; refused while the storage is paused.
pub fn has_business_delete(granted: bool, paused: Option<&str>) -> (r: Result<(), String>)
    ensures
        match (r, permission_check(ACTION_BUSINESS_DELETE@, true, granted, reason_view(paused))) {
            (Ok(()), Ok(())) => true,
            (Err(m), Err(n)) => m@ == n,
            _ => false,
        },
{
    check_permission(ACTION_BUSINESS_DELETE, true, granted, paused)
}

} // verus!

verus! {

/// The kinds and names of a list of permissions.
pub open spec fn views(s: Seq<Permission>) -> Seq<(bool, Seq<char>)> {
    s.map_values(|p: Permission| p@)
}

/// The permissions of the permitted kind, in order.
pub open spec fn permitted_only(s: Seq<(bool, Seq<char>)>) -> Seq<(bool, Seq<char>)>
    decreases s.len(),
{
    if s.len() == 0 {
        s
    } else if s.last().0 {
        permitted_only(s.drop_last()).push(s.last())
    } else {
        permitted_only(s.drop_last())
    }
}

/// Two lists hold the same permissions, ignoring order and repetition.
pub open spec fn same_permissions(a: Seq<Permission>, b: Seq<Permission>) -> bool {
    views(a).to_set() == views(b).to_set()
}

/// The positions of the entries whose permissions are exactly `full`.
pub open spec fn matching_positions<K>(
    map: Seq<(K, Vec<Permission>)>,
    full: Set<(bool, Seq<char>)>,
) -> Seq<int>
    decreases map.len(),
{
    if map.len() == 0 {
        Seq::empty()
    } else if views(map.last().1@).to_set() == full {
        matching_positions(map.drop_last(), full).push(map.len() - 1)
    } else {
        matching_positions(map.drop_last(), full)
    }
}

/// Copies a list of permissions.
pub fn clone_permissions(s: &Vec<Permission>) -> (r: Vec<Permission>)
    ensures
        views(r@) == views(s@),
{
    let mut r: Vec<Permission> = Vec::new();
    let mut i: usize = 0;
    while i < s.len()
        invariant
            i <= s@.len(),
            views(r@) == views(s@.subrange(0, i as int)),
        decreases s@.len() - i,
    {
        let ghost old_r = r@;
        let c = s[i].clone();
        r.push(c);
        proof {
            assert(views(r@) =~= views(old_r).push(s@[i as int]@));
            assert(views(s@.subrange(0, i + 1)) =~= views(s@.subrange(0, i as int)).push(
                s@[i as int]@,
            ));
        }
        i = i + 1;
    }
    assert(s@.subrange(0, s@.len() as int) =~= s@);
    r
}

/// Whether a list holds a permission.
fn contains_permission(s: &Vec<Permission>, p: &Permission) -> (r: bool)
    ensures
        r == views(s@).contains(p@),
{
    let mut i: usize = 0;
    while i < s.len()
        invariant
            i <= s@.len(),
            forall|j: int| 0 <= j < i ==> #[trigger] s@[j]@ != p@,
        decreases s@.len() - i,
    {
        if s[i].same_as(p) {
            assert(views(s@)[i as int] == p@);
            return true;
        }
        i = i + 1;
    }
    proof {
        if views(s@).contains(p@) {
            let j = choose|j: int| 0 <= j < views(s@).len() && views(s@)[j] == p@;
            assert(s@[j]@ == p@);
        }
    }
    false
}

/// Whether every permission of `a` is in `b`.
fn covered(a: &Vec<Permission>, b: &Vec<Permission>) -> (r: bool)
    ensures
        r == views(a@).to_set().subset_of(views(b@).to_set()),
{
    let mut i: usize = 0;
    while i < a.len()
        invariant
            i <= a@.len(),
            forall|j: int| 0 <= j < i ==> views(b@).contains(#[trigger] a@[j]@),
        decreases a@.len() - i,
    {
        if !contains_permission(b, &a[i]) {
            proof {
                assert(views(a@).to_set().contains(a@[i as int]@)) by {
                    assert(views(a@)[i as int] == a@[i as int]@);
                }
            }
            return false;
        }
        i = i + 1;
    }
    proof {
        assert forall|x: (bool, Seq<char>)| views(a@).to_set().contains(x) implies views(
            b@,
        ).to_set().contains(x) by {
            let j = choose|j: int| 0 <= j < views(a@).len() && views(a@)[j] == x;
            assert(a@[j]@ == x);
        }
    }
    true
}

/// Whether two lists hold the same permissions, ignoring order and repetition.
pub fn same_permission_set(a: &Vec<Permission>, b: &Vec<Permission>) -> (r: bool)
    ensures
        r == same_permissions(a@, b@),
{
    let ab = covered(a, b);
    let ba = covered(b, a);
    proof {
        if ab && ba {
            assert(views(a@).to_set() =~= views(b@).to_set());
        }
    }
    ab && ba
}

/// The permissions of the permitted kind, in order.
pub fn permitted_permissions(permissions: &Vec<Permission>) -> (r: Vec<Permission>)
    ensures
        views(r@) == permitted_only(views(permissions@)),
{
    let mut r: Vec<Permission> = Vec::new();
    let mut i: usize = 0;
    while i < permissions.len()
        invariant
            i <= permissions@.len(),
            views(r@) == permitted_only(views(permissions@.subrange(0, i as int))),
        decreases permissions@.len() - i,
    {
        let ghost prefix = permissions@.subrange(0, i as int);
        let ghost next = permissions@.subrange(0, i + 1);
        proof {
            assert(views(next).drop_last() =~= views(prefix));
            assert(views(next).last() == permissions@[i as int]@);
        }
        if permissions[i].is_permit() {
            r.push(permissions[i].clone());
            proof {
                assert(views(r@) =~= permitted_only(views(prefix)).push(permissions@[i as int]@));
            }
        }
        i = i + 1;
    }
    assert(permissions@.subrange(0, permissions@.len() as int) =~= permissions@);
    r
}

/// The keys whose permissions are exactly `full_permissions` (none when that
/// set is empty), in the order of the entries.
pub fn super_keys<K: Clone>(permission_map: &Vec<(K, Vec<Permission>)>, full_permissions: &Vec<Permission>) -> (r: Vec<K>)
    ensures
        full_permissions@.len() == 0 ==> r@.len() == 0,
        full_permissions@.len() > 0 ==> {
            let idx = matching_positions(permission_map@, views(full_permissions@).to_set());
            &&& r@.len() == idx.len()
            &&& forall|j: int|
                0 <= j < idx.len() ==> cloned::<K>(permission_map@[idx[j]].0, #[trigger] r@[j])
        },
{
    let mut r: Vec<K> = Vec::new();
    if full_permissions.len() == 0 {
        return r;
    }
    let mut i: usize = 0;
    while i < permission_map.len()
        invariant
            i <= permission_map@.len(),
            full_permissions@.len() > 0,
            r@.len() == matching_positions(
                permission_map@.subrange(0, i as int),
                views(full_permissions@).to_set(),
            ).len(),
            forall|j: int|
                0 <= j < r@.len() ==> #[trigger] matching_positions(
                    permission_map@.subrange(0, i as int),
                    views(full_permissions@).to_set(),
                )[j] < i && cloned::<K>(
                    permission_map@[matching_positions(
                        permission_map@.subrange(0, i as int),
                        views(full_permissions@).to_set(),
                    )[j]].0,
                    r@[j],
                ),
        decreases permission_map@.len() - i,
    {
        let ghost prefix = permission_map@.subrange(0, i as int);
        let ghost next = permission_map@.subrange(0, i + 1);
        let ghost before = r@;
        proof {
            assert(next.drop_last() =~= prefix);
            assert(next.last() == permission_map@[i as int]);
        }
        let (key, permissions) = &permission_map[i];
        if same_permission_set(permissions, full_permissions) {
            let k = key.clone();
            r.push(k);
            proof {
                let idx = matching_positions(next, views(full_permissions@).to_set());
                assert(idx == matching_positions(prefix, views(full_permissions@).to_set()).push(i as int));
                assert forall|j: int| 0 <= j < r@.len() implies #[trigger] idx[j] < i + 1 && cloned::<K>(
                    permission_map@[idx[j]].0,
                    r@[j],
                ) by {
                    if j < before.len() {
                        assert(r@[j] == before[j]);
                    }
                }
            }
        } else {
            proof {
                assert(matching_positions(next, views(full_permissions@).to_set()) == matching_positions(
                    prefix,
                    views(full_permissions@).to_set(),
                ));
            }
        }
        i = i + 1;
    }
    assert(permission_map@.subrange(0, permission_map@.len() as int) =~= permission_map@);
    r
}

} // verus!

verus! {

/// The permission the storage gives each of its permission names, in order.
pub open spec fn all_permission_views() -> Seq<(bool, Seq<char>)> {
    action_names().map_values(|n: Seq<char>| (permission_kind(n)->0, n))
}

/// An update of the permissions of a user or of a role.
pub enum PermissionUpdate<U> {
    UpdateUserPermission(U, Option<Vec<Permission>>),
    UpdateRolePermission(String, Option<Vec<Permission>>),
}

impl InnerState {
    /// Every permission of the storage, each with the kind the storage gives it.
    pub fn get_all_permissions(&self) -> (r: Vec<Permission>)
        ensures
            views(r@) == all_permission_views(),
    {
        let names = actions();
        let mut r: Vec<Permission> = Vec::new();
        let mut i: usize = 0;
        while i < names.len()
            invariant
                names@.len() == action_names().len(),
                forall|j: int| 0 <= j < names@.len() ==> #[trigger] names@[j]@ == action_names()[j],
                i <= names@.len(),
                views(r@) == all_permission_views().subrange(0, i as int),
            decreases names@.len() - i,
        {
            let ghost old_r = r@;
            let name = names[i];
            proof {
                assert(permission_kind(name@) is Some);
            }
            match self.parse_permission(name) {
                Ok(p) => {
                    r.push(p);
                    proof {
                        assert(views(r@) =~= views(old_r).push(p@));
                        assert(all_permission_views().subrange(0, i + 1) =~= all_permission_views().subrange(
                            0,
                            i as int,
                        ).push(all_permission_views()[i as int]));
                    }
                },
                Err(_) => {
                    return r;
                },
            }
            i = i + 1;
        }
        assert(all_permission_views().subrange(0, i as int) =~= all_permission_views());
        r
    }

    /// How the permissions move to this version: the full set becomes every
    /// permission of the storage, and each user or role that held every
    /// permitted permission of the old set is granted every permitted
    /// permission of the new one (users first, then roles).
    pub fn permission_upgrade<U: Clone>(
        &self,
        old_permissions: &Vec<Permission>,
        user_permissions: &Vec<(U, Vec<Permission>)>,
        role_permissions: &Vec<(String, Vec<Permission>)>,
    ) -> (r: (Vec<Permission>, Vec<PermissionUpdate<U>>))
        ensures
            views(r.0@) == all_permission_views(),
            ({
                let old_permitted = permitted_only(views(old_permissions@));
                let new_permitted = permitted_only(all_permission_views());
                let users = if old_permitted.len() == 0 {
                    Seq::empty()
                } else {
                    matching_positions(user_permissions@, old_permitted.to_set())
                };
                let roles = if old_permitted.len() == 0 {
                    Seq::empty()
                } else {
                    matching_positions(role_permissions@, old_permitted.to_set())
                };
                &&& r.1@.len() == users.len() + roles.len()
                &&& forall|j: int|
                    0 <= j < users.len() ==> match #[trigger] r.1@[j] {
                        PermissionUpdate::UpdateUserPermission(u, Some(ps)) => cloned::<U>(
                            user_permissions@[users[j]].0,
                            u,
                        ) && views(ps@) == new_permitted,
                        _ => false,
                    }
                &&& forall|j: int|
                    users.len() <= j < r.1@.len() ==> match #[trigger] r.1@[j] {
                        PermissionUpdate::UpdateRolePermission(role, Some(ps)) => role@
                            == role_permissions@[roles[j - users.len()]].0@ && views(ps@)
                            == new_permitted,
                        _ => false,
                    }
            }),
    {
        let old_permitted = permitted_permissions(old_permissions);
        let super_users = super_keys(user_permissions, &old_permitted);
        let super_roles = super_keys(role_permissions, &old_permitted);
        let new_permissions = self.get_all_permissions();
        let new_permitted = permitted_permissions(&new_permissions);
        let ghost users = if old_permitted@.len() == 0 {
            Seq::<int>::empty()
        } else {
            matching_positions(user_permissions@, views(old_permitted@).to_set())
        };
        let ghost roles = if old_permitted@.len() == 0 {
            Seq::<int>::empty()
        } else {
            matching_positions(role_permissions@, views(old_permitted@).to_set())
        };
        let ghost nu = super_users@.len();
        let ghost all_users = super_users@;
        let ghost all_roles = super_roles@;
        let mut super_users = super_users;
        let mut super_roles = super_roles;
        let mut updated: Vec<PermissionUpdate<U>> = Vec::new();
        while super_users.len() > 0
            invariant
                all_users.len() == users.len(),
                forall|j: int| 0 <= j < users.len() ==> cloned::<U>(user_permissions@[users[j]].0, #[trigger] all_users[j]),
                views(new_permitted@) == permitted_only(all_permission_views()),
                updated@.len() + super_users@.len() == all_users.len(),
                super_users@ == all_users.skip(updated@.len() as int),
                forall|j: int|
                    0 <= j < updated@.len() ==> match #[trigger] updated@[j] {
                        PermissionUpdate::UpdateUserPermission(u, Some(ps)) => cloned::<U>(
                            user_permissions@[users[j]].0,
                            u,
                        ) && views(ps@) == permitted_only(all_permission_views()),
                        _ => false,
                    },
            decreases super_users@.len(),
        {
            let ghost k = updated@.len() as int;
            let u = super_users.remove(0);
            proof {
                assert(u == all_users[k]);
            }
            let ps = clone_permissions(&new_permitted);
            updated.push(PermissionUpdate::UpdateUserPermission(u, Some(ps)));
            proof {
                assert(super_users@ =~= all_users.skip(updated@.len() as int));
            }
        }
        while super_roles.len() > 0
            invariant
                all_users.len() == users.len(),
                all_roles.len() == roles.len(),
                forall|j: int| 0 <= j < roles.len() ==> cloned::<String>(role_permissions@[roles[j]].0, #[trigger] all_roles[j]),
                views(new_permitted@) == permitted_only(all_permission_views()),
                users.len() <= updated@.len(),
                updated@.len() - users.len() + super_roles@.len() == all_roles.len(),
                super_roles@ == all_roles.skip(updated@.len() - users.len()),
                forall|j: int|
                    0 <= j < users.len() ==> match #[trigger] updated@[j] {
                        PermissionUpdate::UpdateUserPermission(u, Some(ps)) => cloned::<U>(
                            user_permissions@[users[j]].0,
                            u,
                        ) && views(ps@) == permitted_only(all_permission_views()),
                        _ => false,
                    },
                forall|j: int|
                    users.len() <= j < updated@.len() ==> match #[trigger] updated@[j] {
                        PermissionUpdate::UpdateRolePermission(role, Some(ps)) => role@
                            == role_permissions@[roles[j - users.len()]].0@ && views(ps@)
                            == permitted_only(all_permission_views()),
                        _ => false,
                    },
            decreases super_roles@.len(),
        {
            let ghost k = updated@.len() - users.len();
            let ghost before = updated@;
            let role = super_roles.remove(0);
            proof {
                assert(role == all_roles[k]);
                assert(cloned::<String>(role_permissions@[roles[k]].0, role));
            }
            let ps = clone_permissions(&new_permitted);
            updated.push(PermissionUpdate::UpdateRolePermission(role, Some(ps)));
            proof {
                assert(super_roles@ =~= all_roles.skip(updated@.len() - users.len()));
                assert forall|j: int| 0 <= j < users.len() implies #[trigger] updated@[j] == before[j] by {}
            }
        }
        (new_permissions, updated)
    }
}

} // verus!

verus! {

/// The permission set of the storage holds each of its thirteen permissions
/// once: no name twice, and every name the storage guards with, each with
/// its kind (the ones everyone holds unless barred are the two queries of
/// pauses and permissions and the business query; the rest are granted).
pub proof fn lemma_permission_set()
    ensures
        action_names().len() == 13,
        action_names().no_duplicates(),
        all_permission_views().len() == 13,
        all_permission_views().no_duplicates(),
        all_permission_views().contains((false, "PauseQuery"@)),
        all_permission_views().contains((true, "PauseReplace"@)),
        all_permission_views().contains((false, "PermissionQuery"@)),
        all_permission_views().contains((true, "PermissionFind"@)),
        all_permission_views().contains((true, "PermissionUpdate"@)),
        all_permission_views().contains((true, "RecordFind"@)),
        all_permission_views().contains((true, "RecordDelete"@)),
        all_permission_views().contains((true, "ScheduleFind"@)),
        all_permission_views().contains((true, "ScheduleReplace"@)),
        all_permission_views().contains((true, "ScheduleTrigger"@)),
        all_permission_views().contains((false, "BusinessQuery"@)),
        all_permission_views().contains((true, "BusinessUpload"@)),
        all_permission_views().contains((true, "BusinessDelete"@)),
{
    reveal_strlit("PauseQuery");
    reveal_strlit("PauseReplace");
    reveal_strlit("PermissionQuery");
    reveal_strlit("PermissionFind");
    reveal_strlit("PermissionUpdate");
    reveal_strlit("RecordFind");
    reveal_strlit("RecordDelete");
    reveal_strlit("ScheduleFind");
    reveal_strlit("ScheduleReplace");
    reveal_strlit("ScheduleTrigger");
    reveal_strlit("BusinessQuery");
    reveal_strlit("BusinessUpload");
    reveal_strlit("BusinessDelete");
    let names = action_names();
    let views = all_permission_views();
    assert forall|i: int, j: int| 0 <= i < names.len() && 0 <= j < names.len() && i != j implies names[i]
        != names[j] by {
        assert(names[i].len() != names[j].len() || names[i][0] != names[j][0] || names[i][1] != names[j][1]
            || names[i][2] != names[j][2] || names[i][5] != names[j][5] || names[i][6] != names[j][6]
            || names[i][7] != names[j][7] || names[i][8] != names[j][8]);
    }
    assert forall|i: int, j: int| 0 <= i < views.len() && 0 <= j < views.len() && i != j implies views[i]
        != views[j] by {
        assert(views[i].1 == names[i] && views[j].1 == names[j]);
    }
    assert(views[0] == (false, "PauseQuery"@));
    assert(views[1] == (true, "PauseReplace"@));
    assert(views[2] == (false, "PermissionQuery"@));
    assert(views[3] == (true, "PermissionFind"@));
    assert(views[4] == (true, "PermissionUpdate"@));
    assert(views[5] == (true, "RecordFind"@));
    assert(views[6] == (true, "RecordDelete"@));
    assert(views[7] == (true, "ScheduleFind"@));
    assert(views[8] == (true, "ScheduleReplace"@));
    assert(views[9] == (true, "ScheduleTrigger"@));
    assert(views[10] == (false, "BusinessQuery"@));
    assert(views[11] == (true, "BusinessUpload"@));
    assert(views[12] == (true, "BusinessDelete"@));
}

} // verus!
