# valid8

Validation of byte strings as ASCII and as UTF-8, verified with Verus.

- `src/ascii.rs`: four ASCII validators (`validate`, `faster`, `arch`,
  `super_arch`). They OR the input into lane registers of 64, 16, 16 and 32
  lanes and test the high bits; each is proved to return exactly whether every
  byte is below `0x80`.
- `src/utf8.rs`: the lane primitives `alignri` and `shuffle` (byte alignment
  and byte shuffle done in each 16-lane half of a 32-lane register), and the
  UTF-8 validator `validate`, which classifies bytes 32 at a time by a shuffle
  through a table of encoding lengths and then checks one encoded scalar at a
  time. It is proved equal to vstd's `valid_utf8`.
- `src/ext.rs`: the trait `SimdValidateExt`, implemented for `[u8]` and `str`,
  and the laws that tie the two validators and `str` together.
- `tests/`: concrete cases and randomized comparisons against the standard
  library's `is_ascii` and `std::str::from_utf8`.
