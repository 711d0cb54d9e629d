# nickracker

A helper for the Minotaur vault puzzles of Project Gorgon, which are a twelve-symbol,
four-peg game of Mastermind.

- `src/solver.rs`: answers and their index form, the scoring of a guess, and the
  candidate-elimination solver that proposes guesses (with the laws it keeps: scoring is
  symmetric, a result keeps exactly the consistent answers, the secret is never ruled out,
  a guess never repeats the previous one).
- `src/bmp.rs`: reading and writing uncompressed 24-bit BMP images.
- `src/capture.rs`: recognising the game's window by title and class, and packing the
  pixels of a captured frame.
- `src/vault.rs`: the pixel geometry that finds a vault window in a screenshot and the
  choices between template matches that turn it into the vault's state.
- `app/`: the console front end, file output, text recognition (tesseract) and the
  template matching (find-subimage), which work on floating point distances.

Everything under `src/` is verified with Verus; `tests/` runs the library on examples.
