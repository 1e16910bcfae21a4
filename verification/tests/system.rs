use rproc::system::{card_vendor, gpu_model_name, is_card_entry, kill_args, CardVendor};

#[test]
fn kill_arguments() {
    assert_eq!(kill_args(4242, false), vec!["-TERM", "4242"]);
    assert_eq!(kill_args(0, true), vec!["-KILL", "0"]);
}

#[test]
fn card_entries_are_bare_cards() {
    assert!(is_card_entry("card0"));
    assert!(is_card_entry("card12"));
    assert!(!is_card_entry("card0-DP-1"));
    assert!(!is_card_entry("renderD128"));
    assert!(!is_card_entry("car"));
}

#[test]
fn card_vendor_from_pci_id() {
    assert_eq!(card_vendor("0x1002\n"), Some(CardVendor::Amd));
    assert_eq!(card_vendor(" 0x8086 "), Some(CardVendor::Intel));
    assert_eq!(card_vendor("0x10de"), None);
    assert_eq!(card_vendor(""), None);
}

#[test]
fn gpu_model_name_prefers_a_label() {
    assert_eq!(gpu_model_name(Some("  Radeon RX 6600\n"), "card0"), "Radeon RX 6600");
    assert_eq!(gpu_model_name(Some("   "), "card1"), "card1");
    assert_eq!(gpu_model_name(None, "card2"), "card2");
}
