use candid::Principal;
use storage::permission::{
    check_permission, has_business_delete, has_business_query, has_business_upload, permitted_permissions,
    super_keys, Permission, PermissionUpdate, ACTION_BUSINESS_UPLOAD, ACTION_PAUSE_REPLACE,
};
use storage::state::InnerState;

fn v000_permissions() -> Vec<Permission> {
    let state = InnerState::default();
    let names = [
        "PauseQuery",
        "PauseReplace",
        "PermissionQuery",
        "PermissionFind",
        "PermissionUpdate",
        "RecordFind",
        "RecordDelete",
        "ScheduleFind",
        "ScheduleReplace",
        "ScheduleTrigger",
    ];
    let permissions: Vec<Permission> = names
        .iter()
        .filter_map(|name| state.parse_permission(name).ok())
        .collect();
    assert_eq!(permissions.len(), names.len());
    permissions
}

fn holds(ps: &[Permission], p: &Permission) -> bool {
    ps.iter().any(|q| q.same_as(p))
}

fn user_update<'a>(updates: &'a [PermissionUpdate<Principal>], user: &Principal) -> Option<&'a Vec<Permission>> {
    updates.iter().find_map(|u| match u {
        PermissionUpdate::UpdateUserPermission(id, Some(ps)) if id == user => Some(ps),
        _ => None,
    })
}

fn role_update<'a>(updates: &'a [PermissionUpdate<Principal>], role: &str) -> Option<&'a Vec<Permission>> {
    updates.iter().find_map(|u| match u {
        PermissionUpdate::UpdateRolePermission(name, Some(ps)) if name == role => Some(ps),
        _ => None,
    })
}

#[test]
fn should_refresh_permission_set_to_latest() {
    let state = InnerState::default();
    let (permissions, updates) = state.permission_upgrade::<Principal>(&v000_permissions(), &vec![], &vec![]);
    assert!(holds(&permissions, &Permission::by_permit(ACTION_BUSINESS_UPLOAD)));
    assert!(updates.is_empty());
}

#[test]
fn should_grant_new_permissions_to_super_user() {
    let state = InnerState::default();
    let user = Principal::from_slice(&[1]);
    let old_permissions = v000_permissions();
    let old_permitted = permitted_permissions(&old_permissions);
    let (_, updates) = state.permission_upgrade(&old_permissions, &vec![(user, old_permitted)], &vec![]);
    let assigned = user_update(&updates, &user);
    assert!(assigned.is_some_and(|ps| holds(ps, &Permission::by_permit(ACTION_BUSINESS_UPLOAD))));
}

#[test]
fn should_not_grant_new_permissions_to_partial_user() {
    let state = InnerState::default();
    let user = Principal::from_slice(&[2]);
    let partial = vec![Permission::by_permit(ACTION_PAUSE_REPLACE)];
    let (_, updates) = state.permission_upgrade(&v000_permissions(), &vec![(user, partial)], &vec![]);
    let assigned = user_update(&updates, &user);
    assert!(!assigned.is_some_and(|ps| holds(ps, &Permission::by_permit(ACTION_BUSINESS_UPLOAD))));
}

#[test]
fn should_grant_new_permissions_to_super_role() {
    let state = InnerState::default();
    let role = "Super".to_string();
    let old_permissions = v000_permissions();
    let old_permitted = permitted_permissions(&old_permissions);
    let (_, updates) =
        state.permission_upgrade::<Principal>(&old_permissions, &vec![], &vec![(role.clone(), old_permitted)]);
    let assigned = role_update(&updates, &role);
    assert!(assigned.is_some_and(|ps| holds(ps, &Permission::by_permit(ACTION_BUSINESS_UPLOAD))));
}

#[test]
fn should_not_grant_new_permissions_to_partial_role() {
    let state = InnerState::default();
    let role = "Operator".to_string();
    let partial = vec![Permission::by_permit(ACTION_PAUSE_REPLACE)];
    let (_, updates) = state.permission_upgrade::<Principal>(&v000_permissions(), &vec![], &vec![(role.clone(), partial)]);
    let assigned = role_update(&updates, &role);
    assert!(!assigned.is_some_and(|ps| holds(ps, &Permission::by_permit(ACTION_BUSINESS_UPLOAD))));
}

#[test]
fn parse_permission_gives_each_default_kind() {
    let state = InnerState::default();
    assert!(state.parse_permission("BusinessQuery").unwrap().same_as(&Permission::by_forbid("BusinessQuery")));
    assert!(state.parse_permission("BusinessDelete").unwrap().same_as(&Permission::by_permit("BusinessDelete")));
    assert!(state.parse_permission("PauseQuery").unwrap().same_as(&Permission::by_forbid("PauseQuery")));
    assert!(state.parse_permission("ScheduleTrigger").unwrap().is_permit());
    let err = state.parse_permission("Nope").unwrap_err();
    assert_eq!(err.0, "Nope");
    let all = state.get_all_permissions();
    assert_eq!(all.len(), 13);
    assert_eq!(permitted_permissions(&all).len(), 10);
}

#[test]
fn super_keys_need_exactly_the_full_set() {
    let full = vec![Permission::by_permit("A"), Permission::by_permit("B")];
    let map = vec![
        (1u8, vec![Permission::by_permit("B"), Permission::by_permit("A")]),
        (2u8, vec![Permission::by_permit("A")]),
        (3u8, vec![Permission::by_permit("A"), Permission::by_permit("B"), Permission::by_permit("C")]),
        (4u8, vec![Permission::by_permit("A"), Permission::by_permit("B"), Permission::by_permit("A")]),
    ];
    assert_eq!(super_keys(&map, &full), vec![1u8, 4u8]);
    assert!(super_keys(&map, &vec![]).is_empty());
}

#[test]
fn permission_checks_decide_as_expected() {
    assert_eq!(has_business_query(true), Ok(()));
    assert_eq!(
        has_business_query(false),
        Err("Permission 'BusinessQuery' is required".to_string())
    );
    assert_eq!(has_business_query(true), Ok(()));
    assert_eq!(has_business_upload(true, None), Ok(()));
    assert_eq!(
        has_business_upload(true, Some("maintenance")),
        Err("Canister is paused: maintenance".to_string())
    );
    assert_eq!(
        has_business_delete(false, Some("maintenance")),
        Err("Permission 'BusinessDelete' is required".to_string())
    );
    assert_eq!(check_permission("BusinessQuery", false, true, Some("x")), Ok(()));
}
