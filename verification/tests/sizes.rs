use zippy::size::render;
use zippy::Zippy;

#[test]
fn humanize_zero_is_in_bytes() {
    assert_eq!(Zippy::humanize(0u64), "0 bytes");
}

#[test]
fn humanize_one_kib() {
    assert_eq!(Zippy::humanize(1024u64), "1 KiB");
}

#[test]
fn humanize_one_mib() {
    assert_eq!(Zippy::humanize(1048576u64), "1 MiB");
}

#[test]
fn humanize_just_below_a_unit_stays_in_the_smaller_one() {
    assert_eq!(Zippy::humanize(1023u32), "1023 bytes");
    assert_eq!(Zippy::humanize(1048575u32), "1023 KiB");
}

#[test]
fn humanize_rounds_down() {
    assert_eq!(Zippy::humanize(1536u16), "1 KiB");
    assert_eq!(Zippy::humanize(2047u64), "1 KiB");
    assert_eq!(Zippy::humanize(2048u64), "2 KiB");
    assert_eq!(render(3 * 1024 * 1024 - 1), "2 MiB");
}

#[test]
fn humanize_takes_every_unit_in_turn() {
    assert_eq!(render(1u128 << 30), "1 GiB");
    assert_eq!(render(1u128 << 40), "1 TiB");
    assert_eq!(render(1u128 << 50), "1 PiB");
    assert_eq!(render(1u128 << 60), "1 EiB");
    assert_eq!(render(1u128 << 70), "1 ZiB");
    assert_eq!(render(1u128 << 80), "1 YiB");
}

#[test]
fn humanize_counts_pebibytes_between_tebibytes_and_exbibytes() {
    assert_eq!(render(5 * (1u128 << 50) + 17), "5 PiB");
    assert_eq!(render((1u128 << 50) - 1), "1023 TiB");
    assert_eq!(render((1u128 << 60) - 1), "1023 PiB");
}

#[test]
fn humanize_has_no_unit_above_yobibytes() {
    assert_eq!(render(u128::MAX), "281474976710655 YiB");
    assert_eq!(render(2048 * (1u128 << 80)), "2048 YiB");
}

#[test]
fn render_writes_many_digits() {
    assert_eq!(render(999), "999 bytes");
    assert_eq!(render(100), "100 bytes");
    assert_eq!(render(10), "10 bytes");
    assert_eq!(render(9), "9 bytes");
    assert_eq!(render(1000 * 1024), "1000 KiB");
}

#[test]
fn humanize_and_render_agree() {
    assert_eq!(Zippy::humanize(123456789u64), render(123456789));
    assert_eq!(Zippy::humanize(123456789u64), "117 MiB");
}

#[test]
fn about_names_the_tool_and_its_version() {
    let text = zippy::about();
    assert_eq!(
        text,
        "zippy v0.1.0\nzippy is a simple tool for de/compressing zip files.\nIt has the following features:\n- Installable using `cargo install zippy`\n- Easy to use"
    );
}
