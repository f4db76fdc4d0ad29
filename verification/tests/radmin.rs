use argos::radmin::{candidates, find_exe, is_running, launch};

#[test]
fn first_candidate_wins() {
    let [first, second] = candidates();
    assert_eq!(first, r"C:\Program Files\Radmin VPN\Radmin VPN.exe");
    assert_eq!(second, r"C:\Program Files (x86)\Radmin VPN\Radmin VPN.exe");
    assert_eq!(find_exe([true, true]), Some(first));
    assert_eq!(find_exe([true, false]), Some(first));
    assert_eq!(find_exe([false, true]), Some(second));
    assert_eq!(find_exe([false, false]), None);
}

#[test]
fn running_program_is_not_started() {
    assert_eq!(launch(true, [true, true]), Ok(None));
    assert_eq!(launch(true, [false, false]), Ok(None));
    assert_eq!(launch(false, [false, true]), Ok(Some(candidates()[1])));
    assert_eq!(launch(false, [false, false]), Err("Radmin VPN is not installed".to_string()));
}

#[test]
fn listing_names_the_program_in_any_case() {
    assert!(is_running("Radmin VPN.exe    1234 Console"));
    assert!(is_running("RADMIN VPN.EXE"));
    assert!(!is_running("INFO: No tasks are running"));
    assert!(!is_running(""));
}
