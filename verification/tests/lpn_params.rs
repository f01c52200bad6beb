use cdm_oprf::lpn::{choose_lpn_parameters, lpn_setup_extrasmall, lpn_setup_large, lpn_setup_small};

#[test]
fn lpn_parameters_for_no_values() {
    let (setup, extend) = choose_lpn_parameters(0, 1);
    let s = lpn_setup_extrasmall();
    assert_eq!(setup, s);
    assert_eq!(extend.weight(), 600);
    assert_eq!(extend.rows(), 1_220);
    assert_eq!(extend.len(), 1_821);
    assert_eq!(extend.cols(), 2_400);
}

#[test]
fn lpn_parameters_small_phase() {
    // 9_600 - (1_220 + 600 + 1) = 7_779 values reach the small phase.
    let (setup, extend) = choose_lpn_parameters(7_779, 1);
    assert_eq!(setup, lpn_setup_small());
    assert_eq!(extend.weight(), 2_600);
    assert_eq!(extend.rows(), 5_060);
    assert_eq!(extend.len(), 7_779 + 5_060 + 2_600 + 1);
    // 2 * 2_600 < 15_440 <= 8 * 2_600
    assert_eq!(extend.cols(), 8 * 2_600);
    let (setup, _) = choose_lpn_parameters(7_778, 1);
    assert_eq!(setup, lpn_setup_extrasmall());
}

#[test]
fn lpn_parameters_large_phase() {
    let n = 10_168_320 - (158_000 + 4_965 + 1);
    let (setup, extend) = choose_lpn_parameters(n, 1);
    assert_eq!(setup, lpn_setup_large());
    assert_eq!(extend.weight(), 1_319);
    assert_eq!(extend.rows(), 589_760);
    assert_eq!(extend.len(), n + 589_760 + 1_319 + 1);
    // the columns stop at the first power-of-two multiple reaching the original columns
    assert_eq!(extend.cols(), 8_192 * 1_319);
}
