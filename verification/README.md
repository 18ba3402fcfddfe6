# cw_attack_rs

Carlini & Wagner L2 targeted attacks on MNIST, CIFAR-10 and ImageNet
(Inception V3) classifiers built with Burn.

## Layout

- `src/` is the verified library. It holds everything the attack program
  decides or parses on integers and bytes, each function with a contract
  proved by Verus:
  - `data/`: the IDX files of MNIST, the CIFAR-10 binary batch, the ImageNet
    sample listing (JPEG filter, labels from synset names, stable ordering by
    file name), single image files, and the conversion between interleaved
    and planar pixel layouts (with both round trips proved);
  - `run.rs`: model type detection from a checkpoint's name, the run plan,
    sample counts, target selection and output file names;
  - `checkpoint.rs`: which reader a checkpoint needs;
  - `cli.rs`: the command line's choices and their validation;
  - `attack.rs`: the competing classes of the margin loss, the number of
    search rounds, success, and the PNG file of an adversarial example;
  - `paths.rs`, `text.rs`: file names, stems and extensions, substring search,
    ASCII case-insensitive and byte-order comparison, decimal rendering;
  - `codec.rs`: the calls into the `image` crate, trusted.
- `app/` is the program around it: argument parsing with clap, file I/O, the
  Burn models and the floating-point optimisation of the attack, metrics and
  reports.
- `tests/` runs the library on concrete inputs.
