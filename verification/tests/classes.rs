use vcad_ecad_pcb::classes::{classify_nets, group_name};

fn names(v: &[&str]) -> Vec<String> {
    v.iter().map(|s| s.to_string()).collect()
}

#[test]
fn pairs_found_by_suffix_and_usb_convention() {
    let nets = names(&[
        "/PCIe.TX_P",
        "/PCIe.TX_N",
        "/USB3-0.DP",
        "/USB3-0.DM",
        "/MDIO.MDC",
        "/LPDDR4 RAM/CK0_T",
        "/LPDDR4 RAM/CK0_C",
    ]);
    let c = classify_nets(&nets);
    assert_eq!(c.pairs.len(), 3);
    assert!(c.is_pair_member("/PCIe.TX_N"));
    assert!(c.is_pair_member("/USB3-0.DM"));
    assert!(c.is_pair_member("/LPDDR4 RAM/CK0_C"));
    assert!(!c.is_pair_member("/MDIO.MDC"));
}

#[test]
fn ddr_and_rgmii_match_groups() {
    let nets = names(&[
        "/LPDDR4 RAM/CA0_A",
        "/LPDDR4 RAM/CA1_A",
        "/LPDDR4 RAM/CA0_B",
        "/LPDDR4 RAM/CA1_B",
        "/LPDDR4 RAM/DQ0",
        "/LPDDR4 RAM/DQ7",
        "/LPDDR4 RAM/DQ8",
        "/RGMII.TXD0",
        "/RGMII.TXC",
    ]);
    let c = classify_nets(&nets);
    assert_eq!(c.match_group("lpddr4-ca-A").unwrap().len(), 2);
    assert_eq!(c.match_group("lpddr4-ca-B").unwrap().len(), 2);
    assert_eq!(c.match_group("lpddr4-dq-lane0").unwrap().len(), 2);
    assert!(c.match_group("lpddr4-dq-lane1").is_none());
    assert_eq!(c.match_group("rgmii").unwrap().len(), 2);
}

#[test]
fn pairs_are_oriented_positive_first_and_legs_used_once() {
    let nets = names(&["USB_D-", "USB_D+", "CLK_N", "CLK_P", "X_P"]);
    let c = classify_nets(&nets);
    assert_eq!(
        c.pairs,
        vec![
            ("USB_D+".to_string(), "USB_D-".to_string()),
            ("CLK_P".to_string(), "CLK_N".to_string()),
        ]
    );
}

#[test]
fn match_groups_come_in_name_order_with_members_in_input_order() {
    let nets = names(&["/RGMII.B", "/LPDDR4 RAM/CS1_B", "/RGMII.A", "/LPDDR4 RAM/CKE0_B", "/LPDDR4 RAM/DQ15"]);
    let c = classify_nets(&nets);
    let got: Vec<(String, Vec<String>)> = c.match_groups.clone();
    assert_eq!(
        got,
        vec![
            ("lpddr4-ca-B".to_string(), names(&["/LPDDR4 RAM/CS1_B", "/LPDDR4 RAM/CKE0_B"])),
            ("rgmii".to_string(), names(&["/RGMII.B", "/RGMII.A"])),
        ]
    );
}

#[test]
fn group_names_of_ddr_lanes_and_overflowing_indices() {
    assert_eq!(group_name("/LPDDR4 RAM/DQ23").as_deref(), Some("lpddr4-dq-lane2"));
    assert_eq!(group_name("/LPDDR4 RAM/DQ80_A").as_deref(), Some("lpddr4-dq-lane10"));
    assert_eq!(group_name("/LPDDR4 RAM/DQS1_C_B").as_deref(), Some("lpddr4-dq-lane0"));
    assert_eq!(group_name("/LPDDR4 RAM/DQ99999999999999999999999"), None);
    assert_eq!(group_name("/LPDDR4 RAM/CKE"), Some("lpddr4-ca-E".to_string()));
    assert_eq!(group_name("/RGMII.RXC").as_deref(), Some("rgmii"));
    assert_eq!(group_name("/SDIO.CLK"), None);
}

#[test]
fn strobe_and_mask_riders_join_their_byte_lane() {
    let nets: Vec<String> = ["/LPDDR4 RAM/DQ0", "/LPDDR4 RAM/DQ1", "/LPDDR4 RAM/DQS0_T", "/LPDDR4 RAM/DM1", "/LPDDR4 RAM/DQS"]
        .iter()
        .map(|s| s.to_string())
        .collect();
    let c = classify_nets(&nets);
    assert_eq!(
        c.match_group("lpddr4-dq-lane0").unwrap(),
        &vec![
            "/LPDDR4 RAM/DQ0".to_string(),
            "/LPDDR4 RAM/DQ1".to_string(),
            "/LPDDR4 RAM/DQS0_T".to_string(),
            "/LPDDR4 RAM/DM1".to_string(),
        ]
    );
    assert_eq!(group_name("/LPDDR4 RAM/DQS9_C").as_deref(), Some("lpddr4-dq-lane1"));
    assert_eq!(group_name("/LPDDR4 RAM/DQS"), None);
}

#[test]
fn mask_riders_are_read_after_dm() {
    assert_eq!(group_name("/LPDDR4 RAM/DM0").as_deref(), Some("lpddr4-dq-lane0"));
    assert_eq!(group_name("/LPDDR4 RAM/DM9_B").as_deref(), Some("lpddr4-dq-lane1"));
    assert_eq!(group_name("/LPDDR4 RAM/DMI"), None);
    assert_eq!(group_name("/LPDDR4 RAM/DQM1"), None);
}
