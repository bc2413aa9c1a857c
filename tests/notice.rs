use broadband::notice::{
    badge_disabled, check_pusher_url, evaluate_actions, notice_counts, notice_priority,
    notice_to_send, user_is_target, Action, NoticeError, Priority, TweakKind,
};

#[test]
fn actions_fold_into_plan() {
    let plan = evaluate_actions(vec![
        Action::SetTweak("sound"),
        Action::Notify,
        Action::SetTweak("highlight"),
    ])
    .unwrap();
    assert_eq!(plan.notify, Some(true));
    assert_eq!(plan.tweaks, vec!["sound", "highlight"]);
    let plan = evaluate_actions::<u8>(vec![]).unwrap();
    assert_eq!(plan.notify, None);
    assert!(plan.tweaks.is_empty());
    let plan = evaluate_actions::<u8>(vec![Action::Other]).unwrap();
    assert_eq!(plan.notify, Some(false));
}

#[test]
fn two_deciding_actions_are_malformed() {
    let r = evaluate_actions::<u8>(vec![Action::Notify, Action::SetTweak(1), Action::Other]);
    assert!(matches!(r, Err(NoticeError::MalformedRule)));
    let r = notice_to_send::<u8>(vec![Action::Notify, Action::Notify]);
    assert!(matches!(r, Err(NoticeError::MalformedRule)));
}

#[test]
fn notice_sent_only_on_notify() {
    assert_eq!(notice_to_send(vec![Action::Notify, Action::SetTweak(7u8)]).unwrap(), Some(vec![7]));
    assert_eq!(notice_to_send(vec![Action::Other, Action::SetTweak(7u8)]).unwrap(), None);
    assert_eq!(notice_to_send::<u8>(vec![Action::SetTweak(1)]).unwrap(), None);
}

#[test]
fn pusher_url_checks() {
    assert!(matches!(check_pusher_url("https://push.example.org/_matrix/push/v1/notify"), Ok(None)));
    assert!(matches!(check_pusher_url("HTTP://push.example.org/notify"), Ok(None)));
    assert!(matches!(check_pusher_url("http://127.0.0.1:8080/notify"), Ok(Some(_))));
    assert!(matches!(check_pusher_url("http://[::1]:8448/notify"), Ok(Some(_))));
    assert!(matches!(check_pusher_url("https://[2001:db8::7]/notify"), Ok(Some(_))));
    assert!(matches!(check_pusher_url("ftp://push.example.org/"), Err(NoticeError::NotHttp)));
    assert!(matches!(check_pusher_url("not a url"), Err(NoticeError::InvalidUrl)));
}

#[test]
fn priority_rules() {
    assert_eq!(notice_priority(true, &vec![]), Priority::High);
    assert_eq!(notice_priority(false, &vec![TweakKind::Other, TweakKind::Sound]), Priority::High);
    assert_eq!(notice_priority(false, &vec![TweakKind::Highlight(true)]), Priority::High);
    assert_eq!(notice_priority(false, &vec![TweakKind::Highlight(false), TweakKind::Other]), Priority::Low);
    assert_eq!(notice_priority(false, &vec![]), Priority::Low);
}

#[test]
fn badge_counts() {
    let none: Vec<String> = vec!["url".to_string()];
    assert!(!badge_disabled(&none));
    assert_eq!(notice_counts(5, &none), (5, 0));
    let off = vec!["x".to_string(), "disable_badge_count".to_string()];
    assert!(badge_disabled(&off));
    assert_eq!(notice_counts(5, &off), (0, 0));
    let unstable = vec!["org.matrix.msc4076.disable_badge_count".to_string()];
    assert_eq!(notice_counts(9, &unstable), (0, 0));
}

#[test]
fn member_event_target() {
    let sender = "@alice:example.org".to_string();
    assert!(user_is_target(&Some(sender.clone()), &sender));
    assert!(!user_is_target(&Some("@bob:example.org".to_string()), &sender));
    assert!(!user_is_target(&None, &sender));
}
