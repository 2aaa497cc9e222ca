use vcad_ecad_pcb::pair::{bail_histogram, coupled, longest_coupled_window, pair_partner, PairBail};

#[test]
fn pair_partner_maps_real_names() {
    assert_eq!(pair_partner("/PCIe.TX_P").as_deref(), Some("/PCIe.TX_N"));
    assert_eq!(pair_partner("/PCIe.TX_N").as_deref(), Some("/PCIe.TX_P"));
    assert_eq!(pair_partner("/ETH.2_P").as_deref(), Some("/ETH.2_N"));
    assert_eq!(
        pair_partner("/LPDDR4 RAM/DQS1_C_B").as_deref(),
        Some("/LPDDR4 RAM/DQS1_T_B")
    );
    assert_eq!(
        pair_partner("/LPDDR4 RAM/CK_T_B").as_deref(),
        Some("/LPDDR4 RAM/CK_C_B")
    );
    assert_eq!(pair_partner("USB_D_P").as_deref(), Some("USB_D_N"));
    assert_eq!(pair_partner("CK_C").as_deref(), Some("CK_T"));
    assert_eq!(pair_partner("/USB3-0.DP").as_deref(), Some("/USB3-0.DM"));
    assert_eq!(pair_partner("/USB3-0.DM").as_deref(), Some("/USB3-0.DP"));
    assert_eq!(pair_partner("/USBC.DP").as_deref(), Some("/USBC.DM"));
    assert_eq!(pair_partner("USB_D+").as_deref(), Some("USB_D-"));
    assert_eq!(pair_partner("LDP"), None);
    assert_eq!(pair_partner("DP"), None);
    assert_eq!(pair_partner("GND"), None);
    assert_eq!(pair_partner("/GPIO4"), None);
    assert_eq!(pair_partner("VCC3V3"), None);
    assert_eq!(pair_partner("_P"), None);
}

#[test]
fn pair_partner_prefers_suffixes_and_swaps_the_last_inner_token() {
    assert_eq!(pair_partner("clk_p").as_deref(), Some("clk_n"));
    assert_eq!(pair_partner("SIG.N").as_deref(), Some("SIG.P"));
    assert_eq!(pair_partner("A_C_x_C_y").as_deref(), Some("A_C_x_T_y"));
    assert_eq!(pair_partner("_C_y"), None);
    assert_eq!(pair_partner("X_T_P").as_deref(), Some("X_T_N"));
    assert_eq!(pair_partner("USB-DM").as_deref(), Some("USB-DP"));
    assert_eq!(pair_partner("USB.D-").as_deref(), Some("USB.D+"));
}

#[test]
fn bail_slugs_are_stable() {
    assert_eq!(PairBail::NoPartnerName.slug(), "no-partner-name");
    assert_eq!(PairBail::PartnerNoPads.slug(), "partner-no-pads");
    assert_eq!(PairBail::PartnerEndpointsCollapse.slug(), "partner-endpoints-collapse");
    assert_eq!(PairBail::SpanTooShort.slug(), "span-too-short");
    assert_eq!(PairBail::CenterlineSearch.slug(), "centerline-search");
    assert_eq!(PairBail::DegenerateCenterline.slug(), "degenerate-centerline");
    assert_eq!(PairBail::LegValidation.slug(), "leg-validation");
    assert_eq!(PairBail::Connector.slug(), "connector");
}

#[test]
fn histogram_counts_bails_most_frequent_first_ties_in_pipeline_order() {
    let outcomes = vec![
        Some(PairBail::Connector),
        None,
        Some(PairBail::SpanTooShort),
        Some(PairBail::Connector),
        Some(PairBail::NoPartnerName),
        None,
        Some(PairBail::SpanTooShort),
        Some(PairBail::LegValidation),
    ];
    assert_eq!(
        bail_histogram(&outcomes),
        vec![
            (PairBail::SpanTooShort, 2),
            (PairBail::Connector, 2),
            (PairBail::NoPartnerName, 1),
            (PairBail::LegValidation, 1),
        ]
    );
    assert_eq!(coupled(&outcomes), 2);
    assert!(bail_histogram(&vec![None, None]).is_empty());
}

#[test]
fn coupled_window_is_the_first_longest_legal_run() {
    assert_eq!(longest_coupled_window(&vec![]), None);
    assert_eq!(longest_coupled_window(&vec![false, false]), None);
    // A lone legal segment cannot carry a coupled run.
    assert_eq!(longest_coupled_window(&vec![true]), None);
    assert_eq!(longest_coupled_window(&vec![true, false, true]), None);
    // Pin-field breakouts at both ends fall outside the window.
    assert_eq!(longest_coupled_window(&vec![false, true, true, true, false]), Some((1, 3)));
    // The longer run wins wherever it lies; ties go to the earlier run.
    assert_eq!(longest_coupled_window(&vec![true, false, true, true]), Some((2, 3)));
    assert_eq!(longest_coupled_window(&vec![true, true, false, true]), Some((0, 1)));
    assert_eq!(longest_coupled_window(&vec![true, true, false, true, true]), Some((0, 1)));
    assert_eq!(longest_coupled_window(&vec![true, true, true]), Some((0, 2)));
}

#[test]
fn suffix_legs_are_each_others_partners() {
    for (p, n) in [("/PCIe.TX_P", "/PCIe.TX_N"), ("clk_p", "clk_n"), ("/X.P", "/X.N")] {
        assert_eq!(pair_partner(p).as_deref(), Some(n));
        assert_eq!(pair_partner(n).as_deref(), Some(p));
    }
}

#[test]
fn the_last_true_complement_token_is_swapped() {
    assert_eq!(pair_partner("A_C_T").as_deref(), Some("A_C_C"));
    assert_eq!(pair_partner("A_T_C").as_deref(), Some("A_T_T"));
    assert_eq!(pair_partner("X_C_Y_T_Z").as_deref(), Some("X_C_Y_C_Z"));
    assert_eq!(pair_partner("X_T_Y_C_Z").as_deref(), Some("X_T_Y_T_Z"));
    assert_eq!(pair_partner("DQS1_C_B").as_deref(), Some("DQS1_T_B"));
}
